//! The sub-allocator of the shared vertex buffer: hands out ranges of
//! vertex indices and takes them back.

use std::ops::Range;
use vstd::prelude::*;

verus! {

/// The free ranges of a buffer of `size()` units.
///
/// The free list is kept sorted, and neighbouring free ranges are merged,
/// so each entry is a maximal run of free units.
pub struct RangeAllocator {
    capacity: usize,
    free: Vec<Range<usize>>,
}

impl View for RangeAllocator {
    type V = Set<int>;

    /// The free pool: every unit that is not handed out.
    closed spec fn view(&self) -> Set<int> {
        Set::new(|u: int| in_some(self.free@, u))
    }
}

/// Whether `u` lies in one of `blocks`.
pub open spec fn in_some(blocks: Seq<Range<usize>>, u: int) -> bool {
    exists|i: int| 0 <= i < blocks.len() && (#[trigger] blocks[i]).start <= u < blocks[i].end
}

/// Whether `blocks` are non-empty, lie below `limit`, and stand in rising
/// order with at least one unit between any two.
pub open spec fn separated(blocks: Seq<Range<usize>>, limit: int) -> bool {
    &&& forall|i: int|
        0 <= i < blocks.len() ==> (#[trigger] blocks[i]).start < blocks[i].end <= limit
    &&& forall|i: int, j: int|
        0 <= i < j < blocks.len() ==> (#[trigger] blocks[i]).end < (#[trigger] blocks[j]).start
}

/// Whether `range` lies clear of `blocks`, between entry `p - 1` and entry `p`.
pub open spec fn clear_at(blocks: Seq<Range<usize>>, p: int, range: Range<usize>, limit: int) -> bool {
    &&& 0 <= p <= blocks.len()
    &&& range.start < range.end <= limit
    &&& forall|j: int| 0 <= j < p ==> (#[trigger] blocks[j]).end <= range.start
    &&& forall|j: int| p <= j < blocks.len() ==> (#[trigger] blocks[j]).start >= range.end
}

/// A range that touches neither neighbour becomes an entry of its own.
proof fn lemma_between(
    before: Seq<Range<usize>>,
    after: Seq<Range<usize>>,
    p: int,
    range: Range<usize>,
    limit: int,
)
    requires
        separated(before, limit),
        clear_at(before, p, range, limit),
        p > 0 ==> before[p - 1].end != range.start,
        p < before.len() ==> before[p].start != range.end,
        after == before.insert(p, range),
    ensures
        separated(after, limit),
        forall|u: int| in_some(after, u) <==> in_some(before, u) || within(range, u),
{
    assert forall|k: int| 0 <= k < after.len() implies #[trigger] after[k] == (if k < p {
        before[k]
    } else if k == p {
        range
    } else {
        before[k - 1]
    }) by {}
    assert forall|i: int, j: int| 0 <= i < j < after.len() implies (#[trigger] after[i]).end < (
    #[trigger] after[j]).start by {
        let i0 = if i < p { i } else { i - 1 };
        let j0 = if j < p { j } else { j - 1 };
        if i != p && j != p {
            assert(before[i0].end < before[j0].start);
        } else if i == p {
            assert(before[j0].start >= range.end);
            assert(before[p].start >= range.end);
            if j0 > p {
                assert(before[p].end < before[j0].start);
            }
        } else {
            assert(before[i0].end <= range.start);
            assert(before[p - 1].end <= range.start);
            if i0 < p - 1 {
                assert(before[i0].end < before[p - 1].start);
            }
        }
    }
    assert forall|i: int| 0 <= i < after.len() implies (#[trigger] after[i]).start < after[i].end
        <= limit by {
        let i0 = if i < p { i } else { i - 1 };
        if i != p {
            assert(before[i0].start < before[i0].end);
        }
    }
    assert forall|u: int| in_some(after, u) <==> in_some(before, u) || within(range, u) by {
        if in_some(after, u) {
            let k = choose|k: int|
                0 <= k < after.len() && (#[trigger] after[k]).start <= u < after[k].end;
            if k < p {
                assert(within(before[k], u));
            } else if k > p {
                assert(within(before[k - 1], u));
            }
        }
        if within(range, u) {
            assert(within(after[p], u));
        }
        if in_some(before, u) {
            let k = choose|k: int|
                0 <= k < before.len() && (#[trigger] before[k]).start <= u < before[k].end;
            if k < p {
                assert(within(after[k], u));
            } else {
                assert(within(after[k + 1], u));
            }
        }
    }
}

/// A range that touches exactly one neighbour, entry `q`, extends it.
proof fn lemma_extend(
    before: Seq<Range<usize>>,
    after: Seq<Range<usize>>,
    q: int,
    range: Range<usize>,
    limit: int,
)
    requires
        separated(before, limit),
        0 <= q < before.len(),
        clear_at(before, q + 1, range, limit) && before[q].end == range.start && (q + 1
            < before.len() ==> before[q + 1].start != range.end) && after == before.update(
            q,
            before[q].start..range.end,
        ) || clear_at(before, q, range, limit) && before[q].start == range.end && (q > 0
            ==> before[q - 1].end != range.start) && after == before.update(
            q,
            range.start..before[q].end,
        ),
    ensures
        separated(after, limit),
        forall|u: int| in_some(after, u) <==> in_some(before, u) || within(range, u),
{
    assert forall|i: int, j: int| 0 <= i < j < after.len() implies (#[trigger] after[i]).end < (
    #[trigger] after[j]).start by {
        assert(before[i].end < before[j].start);
        assert(before[j].start < before[j].end);
        assert(before[i].start < before[i].end);
    }
    assert forall|i: int| 0 <= i < after.len() implies (#[trigger] after[i]).start < after[i].end
        <= limit by {
        assert(before[i].start < before[i].end);
    }
    assert forall|u: int| in_some(after, u) <==> in_some(before, u) || within(range, u) by {
        if in_some(after, u) {
            let k = choose|k: int|
                0 <= k < after.len() && (#[trigger] after[k]).start <= u < after[k].end;
            if k == q {
                if !within(range, u) {
                    assert(within(before[q], u));
                }
            } else {
                assert(within(before[k], u));
            }
        }
        if within(range, u) {
            assert(within(after[q], u));
        }
        if in_some(before, u) {
            let k = choose|k: int|
                0 <= k < before.len() && (#[trigger] before[k]).start <= u < before[k].end;
            assert(within(after[k], u));
        }
    }
}

/// A range that touches both neighbours joins entries `p - 1` and `p`.
proof fn lemma_bridge(
    before: Seq<Range<usize>>,
    after: Seq<Range<usize>>,
    p: int,
    range: Range<usize>,
    limit: int,
)
    requires
        separated(before, limit),
        clear_at(before, p, range, limit),
        0 < p < before.len(),
        before[p - 1].end == range.start,
        before[p].start == range.end,
        after == before.remove(p).update(p - 1, before[p - 1].start..before[p].end),
    ensures
        separated(after, limit),
        forall|u: int| in_some(after, u) <==> in_some(before, u) || within(range, u),
{
    assert forall|k: int| 0 <= k < after.len() implies #[trigger] after[k] == (if k < p - 1 {
        before[k]
    } else if k == p - 1 {
        before[p - 1].start..before[p].end
    } else {
        before[k + 1]
    }) by {}
    assert(before[p - 1].start < before[p - 1].end);
    assert(before[p].start < before[p].end);
    assert forall|i: int, j: int| 0 <= i < j < after.len() implies (#[trigger] after[i]).end < (
    #[trigger] after[j]).start by {
        let i0 = if i < p - 1 { i } else { i + 1 };
        let j0 = if j <= p - 1 { j } else { j + 1 };
        assert(before[i0].end < before[j0].start);
    }
    assert forall|i: int| 0 <= i < after.len() implies (#[trigger] after[i]).start < after[i].end
        <= limit by {
        let i0 = if i < p - 1 { i } else { i + 1 };
        assert(before[i0].start < before[i0].end);
    }
    assert forall|u: int| in_some(after, u) <==> in_some(before, u) || within(range, u) by {
        if in_some(after, u) {
            let k = choose|k: int|
                0 <= k < after.len() && (#[trigger] after[k]).start <= u < after[k].end;
            if k < p - 1 {
                assert(within(before[k], u));
            } else if k == p - 1 {
                if u < range.start {
                    assert(within(before[p - 1], u));
                } else if u >= range.end {
                    assert(within(before[p], u));
                }
            } else {
                assert(within(before[k + 1], u));
            }
        }
        if within(range, u) {
            assert(within(after[p - 1], u));
        }
        if in_some(before, u) {
            let k = choose|k: int|
                0 <= k < before.len() && (#[trigger] before[k]).start <= u < before[k].end;
            if k < p - 1 {
                assert(within(after[k], u));
            } else if k <= p {
                assert(within(after[p - 1], u));
            } else {
                assert(within(after[k - 1], u));
            }
        }
    }
}

/// Whether the `len` units from `at` on lie below `limit` and in `pool`.
pub open spec fn fits_in(pool: Set<int>, limit: int, at: int, len: int) -> bool {
    &&& 0 <= at
    &&& at + len <= limit
    &&& forall|u: int| at <= u < at + len ==> pool.contains(u)
}

/// Whether `at` is the lowest place where `len` units of `pool` lie side by side.
pub open spec fn lowest_fit(pool: Set<int>, limit: int, at: int, len: int) -> bool {
    &&& fits_in(pool, limit, at, len)
    &&& forall|lower: int| lower < at ==> !fits_in(pool, limit, lower, len)
}

/// Whether `range` lies below `limit` with none of its units in `pool`:
/// what holds of a range that was handed out and not yet given back.
pub open spec fn held(pool: Set<int>, limit: int, range: Range<usize>) -> bool {
    &&& range.start <= range.end <= limit
    &&& forall|u: int| within(range, u) ==> !pool.contains(u)
}

/// Whether two ranges share no unit.
pub open spec fn disjoint(a: Range<usize>, b: Range<usize>) -> bool {
    a.start >= a.end || b.start >= b.end || a.end <= b.start || b.end <= a.start
}

/// Whether `u` lies in `range`.
pub open spec fn within(range: Range<usize>, u: int) -> bool {
    range.start <= u < range.end
}

impl RangeAllocator {
    /// The number of units in the buffer.
    pub closed spec fn size(&self) -> usize {
        self.capacity
    }

    /// The free list is sorted and its entries are non-empty, inside the
    /// buffer, and separated by at least one unit that is handed out.
    pub closed spec fn wf(&self) -> bool {
        separated(self.free@, self.capacity as int)
    }

    /// Whether `range` lies in the buffer with none of its units free:
    /// what holds of a range that was handed out and not yet given back.
    pub open spec fn holds(&self, range: Range<usize>) -> bool {
        held(self@, self.size() as int, range)
    }

    /// A run of free units lies inside one entry of the free list.
    proof fn lemma_fit_in_block(&self, at: int, len: int)
        requires
            self.wf(),
            len > 0,
            fits_in(self@, self.size() as int, at, len),
        ensures
            exists|i: int|
                0 <= i < self.free@.len() && (#[trigger] self.free@[i]).start <= at && at + len
                    <= self.free@[i].end,
    {
        assert(self@.contains(at));
        let i = choose|i: int|
            0 <= i < self.free@.len() && (#[trigger] self.free@[i]).start <= at < self.free@[i].end;
        if at + len > self.free@[i].end {
            let u = self.free@[i].end as int;
            assert(self@.contains(u));
            let j = choose|j: int|
                0 <= j < self.free@.len() && (#[trigger] self.free@[j]).start <= u
                    < self.free@[j].end;
            if j < i {
                assert(self.free@[j].end < self.free@[i].start);
            } else if j > i {
                assert(self.free@[i].end < self.free@[j].start);
            }
            assert(false);
        }
    }

    /// Every free unit lies inside the buffer.
    pub proof fn lemma_free_in_buffer(&self, u: int)
        requires
            self.wf(),
            self@.contains(u),
        ensures
            0 <= u < self.size(),
    {
    }

    /// An allocator for a buffer of `size` units, all of them free.
    pub fn new(size: usize) -> (allocator: Self)
        ensures
            allocator.wf(),
            allocator.size() == size,
            forall|u: int| #![trigger allocator@.contains(u)] allocator@.contains(u) <==> 0 <= u < size,
    {
        let mut free: Vec<Range<usize>> = Vec::new();
        if size > 0 {
            free.push(0..size);
        }
        let allocator = RangeAllocator { capacity: size, free };
        proof {
            assert forall|u: int| 0 <= u < size implies allocator@.contains(u) by {
                assert(within(allocator.free@[0], u));
            }
        }
        allocator
    }

    /// The number of units in the buffer.
    pub fn capacity(&self) -> (size: usize)
        ensures
            size == self.size(),
    {
        self.capacity
    }

    /// Whether `len` free units lie side by side somewhere.
    pub fn can_allocate(&self, len: usize) -> (fits: bool)
        requires
            self.wf(),
            len > 0,
        ensures
            fits == exists|at: int| fits_in(self@, self.size() as int, at, len as int),
    {
        let mut i: usize = 0;
        while i < self.free.len()
            invariant
                self.wf(),
                len > 0,
                i <= self.free@.len(),
                forall|j: int| 0 <= j < i ==> (#[trigger] self.free@[j]).end - self.free@[j].start < len,
            decreases self.free@.len() - i,
        {
            if self.free[i].end - self.free[i].start >= len {
                proof {
                    let block = self.free@[i as int];
                    assert forall|u: int| block.start <= u < block.start + len implies self@.contains(
                        u,
                    ) by {
                        assert(within(self.free@[i as int], u));
                    }
                    assert(fits_in(self@, self.size() as int, block.start as int, len as int));
                }
                return true;
            }
            i += 1;
        }
        proof {
            assert forall|at: int| !fits_in(self@, self.size() as int, at, len as int) by {
                if fits_in(self@, self.size() as int, at, len as int) {
                    self.lemma_fit_in_block(at, len as int);
                }
            }
        }
        false
    }

    /// Hands out the lowest run of `len` free units, or nothing where no
    /// `len` free units lie side by side.
    pub fn allocate_range(&mut self, len: usize) -> (found: Option<Range<usize>>)
        requires
            old(self).wf(),
            len > 0,
        ensures
            final(self).wf(),
            final(self).size() == old(self).size(),
            match found {
                Some(range) => {
                    &&& range.end - range.start == len
                    &&& lowest_fit(old(self)@, old(self).size() as int, range.start as int, len as int)
                    &&& forall|u: int|
                        #![trigger final(self)@.contains(u)]
                        final(self)@.contains(u) <==> old(self)@.contains(u) && !within(range, u)
                },
                None => {
                    &&& forall|at: int| !fits_in(old(self)@, old(self).size() as int, at, len as int)
                    &&& final(self)@ == old(self)@
                },
            },
    {
        let mut i: usize = 0;
        while i < self.free.len()
            invariant
                *self == *old(self),
                self.wf(),
                len > 0,
                i <= self.free@.len(),
                forall|j: int| 0 <= j < i ==> (#[trigger] self.free@[j]).end - self.free@[j].start < len,
            decreases self.free@.len() - i,
        {
            let start = self.free[i].start;
            let end = self.free[i].end;
            if end - start >= len {
                let range = start..start + len;
                if end - start == len {
                    self.free.remove(i);
                } else {
                    self.free.set(i, start + len..end);
                }
                proof {
                    let before = old(self).free@;
                    let after = self.free@;
                    assert(before[i as int].start == start && before[i as int].end == end);
                    assert forall|u: int| start <= u < start + len implies old(self)@.contains(
                        u,
                    ) by {
                        assert(within(before[i as int], u));
                    }
                    assert forall|at: int| at < range.start implies !fits_in(
                        old(self)@,
                        old(self).size() as int,
                        at,
                        len as int,
                    ) by {
                        if fits_in(old(self)@, old(self).size() as int, at, len as int) {
                            old(self).lemma_fit_in_block(at, len as int);
                            let j = choose|j: int|
                                0 <= j < before.len() && (#[trigger] before[j]).start <= at && at
                                    + len <= before[j].end;
                            if j > i {
                                assert(before[i as int].end < before[j].start);
                            }
                        }
                    }
                    assert forall|u: int| self@.contains(u) implies old(self)@.contains(u)
                        && !within(range, u) by {
                        let k = choose|k: int|
                            0 <= k < after.len() && (#[trigger] after[k]).start <= u < after[k].end;
                        if end - start == len {
                            if k < i {
                                assert(after[k] == before[k]);
                                assert(before[k].end < before[i as int].start);
                            } else {
                                assert(after[k] == before[k + 1]);
                                assert(before[i as int].end < before[k + 1].start);
                            }
                        } else {
                            if k < i {
                                assert(after[k] == before[k]);
                                assert(before[k].end < before[i as int].start);
                            } else if k > i {
                                assert(after[k] == before[k]);
                                assert(before[i as int].end < before[k].start);
                            } else {
                                assert(within(before[i as int], u));
                            }
                        }
                    }
                    assert forall|u: int| old(self)@.contains(u) && !within(range, u) implies self@.contains(
                        u,
                    ) by {
                        let k = choose|k: int|
                            0 <= k < before.len() && (#[trigger] before[k]).start <= u
                                < before[k].end;
                        if end - start == len {
                            if k < i {
                                assert(within(after[k], u));
                            } else {
                                assert(k != i);
                                assert(within(after[k - 1], u));
                            }
                        } else {
                            assert(within(after[k], u));
                        }
                    }
                    assert(self.wf()) by {
                        assert forall|p: int, q: int| 0 <= p < q < after.len() implies (
                        #[trigger] after[p]).end < (#[trigger] after[q]).start by {
                            if end - start == len {
                                let p0 = if p < i { p } else { p + 1 };
                                let q0 = if q < i { q } else { q + 1 };
                                assert(before[p0].end < before[q0].start);
                            } else {
                                assert(before[p].end < before[q].start);
                            }
                        }
                        assert forall|p: int| 0 <= p < after.len() implies (#[trigger] after[p]).start
                            < after[p].end <= self.capacity by {
                            if end - start == len {
                                let p0 = if p < i { p } else { p + 1 };
                                assert(before[p0].start < before[p0].end);
                            } else {
                                assert(before[p].start < before[p].end);
                            }
                        }
                    }
                }
                return Some(range);
            }
            i += 1;
        }
        proof {
            assert forall|at: int| !fits_in(self@, self.size() as int, at, len as int) by {
                if fits_in(self@, self.size() as int, at, len as int) {
                    self.lemma_fit_in_block(at, len as int);
                }
            }
        }
        None
    }

    /// Takes `range` back into the free pool, merging it with the free
    /// ranges that touch it.
    pub fn free_range(&mut self, range: Range<usize>)
        requires
            old(self).wf(),
            range.start < range.end,
            old(self).holds(range),
        ensures
            final(self).wf(),
            final(self).size() == old(self).size(),
            forall|u: int|
                #![trigger final(self)@.contains(u)]
                final(self)@.contains(u) <==> old(self)@.contains(u) || within(range, u),
    {
        let mut p: usize = 0;
        while p < self.free.len() && self.free[p].start < range.start
            invariant
                *self == *old(self),
                p <= self.free@.len(),
                forall|j: int| 0 <= j < p ==> (#[trigger] self.free@[j]).start < range.start,
            decreases self.free@.len() - p,
        {
            p += 1;
        }
        let ghost before = self.free@;
        proof {
            assert forall|j: int| 0 <= j < p implies (#[trigger] before[j]).end <= range.start by {
                if before[j].end > range.start {
                    assert(within(before[j], range.start as int));
                    assert(self@.contains(range.start as int));
                    assert(within(range, range.start as int));
                }
            }
            assert forall|j: int| p <= j < before.len() implies (#[trigger] before[j]).start
                >= range.end by {
                if j > p {
                    assert(before[p as int].end < before[j].start);
                }
                if before[j].start < range.end {
                    assert(within(before[j], before[j].start as int));
                    assert(self@.contains(before[j].start as int));
                    assert(within(range, before[j].start as int));
                }
            }
        }
        let merge_left = p > 0 && self.free[p - 1].end == range.start;
        let merge_right = p < self.free.len() && self.free[p].start == range.end;
        if merge_left && merge_right {
            let start = self.free[p - 1].start;
            let end = self.free[p].end;
            self.free.remove(p);
            self.free.set(p - 1, start..end);
            proof {
                lemma_bridge(before, self.free@, p as int, range, self.capacity as int);
            }
        } else if merge_left {
            let start = self.free[p - 1].start;
            self.free.set(p - 1, start..range.end);
            proof {
                lemma_extend(before, self.free@, p - 1, range, self.capacity as int);
            }
        } else if merge_right {
            let end = self.free[p].end;
            self.free.set(p, range.start..end);
            proof {
                lemma_extend(before, self.free@, p as int, range, self.capacity as int);
            }
        } else {
            self.free.insert(p, range.start..range.end);
            proof {
                lemma_between(before, self.free@, p as int, range, self.capacity as int);
            }
        }
        proof {
            assert forall|u: int| self@.contains(u) <==> old(self)@.contains(u) || within(
                range,
                u,
            ) by {
                assert(in_some(self.free@, u) <==> in_some(before, u) || within(range, u));
            }
        }
    }

    /// Extends the buffer to `size` units; the new units are free.
    pub fn grow_to(&mut self, size: usize)
        requires
            old(self).wf(),
            old(self).size() <= size,
        ensures
            final(self).wf(),
            final(self).size() == size,
            forall|u: int|
                #![trigger final(self)@.contains(u)]
                final(self)@.contains(u) <==> old(self)@.contains(u) || old(self).size() <= u < size,
    {
        let old_size = self.capacity;
        self.capacity = size;
        if old_size < size {
            let ghost grown = *self;
            assert(grown.wf());
            assert(grown@ == old(self)@);
            assert forall|u: int| old_size <= u < size implies !grown@.contains(u) by {
                if grown@.contains(u) {
                    old(self).lemma_free_in_buffer(u);
                }
            }
            self.free_range(old_size..size);
            proof {
                assert forall|u: int| self@.contains(u) <==> old(self)@.contains(u) || old_size
                    <= u < size by {
                    assert(within(old_size..size, u) <==> old_size <= u < size);
                }
            }
        }
    }
}

/// A range whose units were free or beyond the buffer shares no unit with
/// one that was handed out.
pub proof fn lemma_fresh_apart(fresh: Range<usize>, taken: Range<usize>, pool: Set<int>, limit: int)
    requires
        forall|u: int| #![trigger within(fresh, u)] within(fresh, u) ==> pool.contains(u) || u >= limit,
        held(pool, limit, taken),
    ensures
        disjoint(fresh, taken),
{
    if !disjoint(fresh, taken) {
        let u = if fresh.start >= taken.start {
            fresh.start as int
        } else {
            taken.start as int
        };
        assert(within(fresh, u) && within(taken, u));
    }
}

} // verus!
