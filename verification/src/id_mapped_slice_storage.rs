//! Sparse per-id slice storage: each source id owns a contiguous block of
//! zero or more components inside one dense buffer.
//!
//! Blocks carry an offset, a size and a capacity.  A free-block list
//! supports first-fit reuse of reclaimed ranges; growing a block first
//! tries to take an adjacent free range in place and otherwise moves the
//! contents into a freshly allocated block.
use vstd::prelude::*;

verus! {

use crate::versioned_index_id::{StandardVersionedIndexId, MAX_INDEX};

broadcast use StandardVersionedIndexId::lemma_index_bounds;

/// Two half-open ranges, given as offset and length, do not overlap.  A
/// length of zero spans nothing, so such a range overlaps nothing.
pub open spec fn ranges_disjoint(o1: int, c1: int, o2: int, c2: int) -> bool {
    c1 == 0 || c2 == 0 || o1 + c1 <= o2 || o2 + c2 <= o1
}

/// One id's block: where it sits, how much of it is filled, and how far it
/// could grow in place.
#[derive(Clone, Copy)]
struct UsedBlock {
    id: StandardVersionedIndexId,
    offset: usize,
    size: usize,
    capacity: usize,
}

/// No well-formed storage lists one non-empty free range twice: two equal
/// entries would overlap each other, so a repeated entry must be empty.
proof fn lemma_equal_free_entries_empty<T>(
    storage: IdMappedResourceSliceStorage<T>,
    entry: (usize, usize),
)
    requires
        storage.wf(),
        exists|k1: int, k2: int|
            0 <= k1 < k2 < storage.free_blocks@.len() && (#[trigger] storage.free_blocks@[k1])
                == entry && (#[trigger] storage.free_blocks@[k2]) == entry,
    ensures
        entry.1 == 0,
{
    let (k1, k2) = choose|k1: int, k2: int|
        0 <= k1 < k2 < storage.free_blocks@.len() && (#[trigger] storage.free_blocks@[k1])
            == entry && (#[trigger] storage.free_blocks@[k2]) == entry;
    assert(ranges_disjoint(entry.0 as int, entry.1 as int, entry.0 as int, entry.1 as int));
}

/// Maps source ids to contiguous component slices in one dense buffer.
pub struct IdMappedResourceSliceStorage<T> {
    resources: Vec<Option<T>>,
    used: Vec<Option<UsedBlock>>,
    free_blocks: Vec<(usize, usize)>,
    resource_id: StandardVersionedIndexId,
}

impl<T> IdMappedResourceSliceStorage<T> {
    /// Length of the dense buffer.
    pub closed spec fn spec_buffer_len(self) -> int {
        self.resources@.len() as int
    }

    /// The block registered for source index `p`, if any.
    spec fn spec_block(self, p: int) -> Option<UsedBlock> {
        if 0 <= p < self.used@.len() {
            self.used@[p]
        } else {
            None
        }
    }

    /// The slice a block holds.
    spec fn block_seq(self, b: UsedBlock) -> Seq<T> {
        Seq::new(b.size as nat, |i: int| self.resources@[b.offset + i].unwrap())
    }

    /// The slice stored for source index `p`, if any.
    pub closed spec fn spec_get_at(self, p: int) -> Option<Seq<T>> {
        match self.spec_block(p) {
            Some(b) => Some(self.block_seq(b)),
            None => None,
        }
    }

    /// The slice stored for `id`.  Storage is keyed by the index field
    /// alone.
    pub open spec fn spec_get(self, id: StandardVersionedIndexId) -> Option<Seq<T>> {
        self.spec_get_at(id.spec_index())
    }

    /// The id recorded for source index `p` when its block was made.
    pub closed spec fn spec_stored_id_at(self, p: int) -> StandardVersionedIndexId {
        self.spec_block(p).unwrap().id
    }

    /// The capacity of source index `p`'s block.
    pub closed spec fn spec_capacity_at(self, p: int) -> int {
        self.spec_block(p).unwrap().capacity as int
    }

    /// The resource id this storage was built for.
    pub closed spec fn spec_resource_id(self) -> StandardVersionedIndexId {
        self.resource_id
    }

    /// A block lies inside the buffer, is filled up to its size, and never
    /// beyond its capacity.
    spec fn block_ok(self, b: UsedBlock) -> bool {
        &&& b.size <= b.capacity
        &&& b.offset + b.capacity <= self.spec_buffer_len()
        &&& forall|i: int| 0 <= i < b.size ==> (#[trigger] self.resources@[b.offset + i]) is Some
    }

    /// Structural invariant: blocks are well-placed, record their owner's
    /// index, and no two blocks — used or free — overlap.
    pub closed spec fn wf(self) -> bool {
        let n = self.spec_buffer_len();
        &&& self.used@.len() <= MAX_INDEX as int + 1
        &&& (forall|p: int|
            0 <= p < self.used@.len() && (#[trigger] self.used@[p]) is Some ==> self.block_ok(
                self.used@[p].unwrap(),
            ) && self.used@[p].unwrap().id.spec_index() == p)
        &&& (forall|k: int|
            0 <= k < self.free_blocks@.len() ==> (#[trigger] self.free_blocks@[k]).0 + self.free_blocks@[k].1
                <= n)
        &&& (forall|p1: int, p2: int|
            0 <= p1 < p2 < self.used@.len() && self.used@[p1] is Some && self.used@[p2] is Some
                ==> ranges_disjoint(
                (#[trigger] self.used@[p1]).unwrap().offset as int,
                self.used@[p1].unwrap().capacity as int,
                (#[trigger] self.used@[p2]).unwrap().offset as int,
                self.used@[p2].unwrap().capacity as int,
            ))
        &&& (forall|p: int, k: int|
            0 <= p < self.used@.len() && self.used@[p] is Some && 0 <= k
                < self.free_blocks@.len() ==> ranges_disjoint(
                (#[trigger] self.used@[p]).unwrap().offset as int,
                self.used@[p].unwrap().capacity as int,
                (#[trigger] self.free_blocks@[k]).0 as int,
                self.free_blocks@[k].1 as int,
            ))
        &&& (forall|k1: int, k2: int|
            0 <= k1 < k2 < self.free_blocks@.len() ==> ranges_disjoint(
                (#[trigger] self.free_blocks@[k1]).0 as int,
                self.free_blocks@[k1].1 as int,
                (#[trigger] self.free_blocks@[k2]).0 as int,
                self.free_blocks@[k2].1 as int,
            ))
    }

    /// An empty storage for the given resource id.
    /// Current length of the dense value buffer.
    pub fn buffer_len(&self) -> (r: usize)
        ensures
            r == self.spec_buffer_len(),
    {
        self.resources.len()
    }

    pub fn new(resource_id: StandardVersionedIndexId) -> (r: Self)
        ensures
            r.wf(),
            r.spec_buffer_len() == 0,
            forall|p: int| r.spec_get_at(p) is None,
            r.spec_resource_id() == resource_id,
    {
        Self {
            resources: Vec::new(),
            used: Vec::new(),
            free_blocks: Vec::new(),
            resource_id,
        }
    }

    /// Claims a range of `size` slots: the first free block large enough is
    /// split, or the buffer grows.  The range belongs to no other block.
    fn allocate_block(&mut self, size: usize, avoid: Ghost<(int, int)>) -> (b: UsedBlock)
        requires
            old(self).wf(),
            old(self).spec_buffer_len() + size <= usize::MAX,
            avoid@.0 >= 0 && avoid@.1 >= 0,
            avoid@.0 + avoid@.1 <= old(self).spec_buffer_len(),
            forall|k: int|
                0 <= k < old(self).free_blocks@.len() ==> ranges_disjoint(
                    avoid@.0,
                    avoid@.1,
                    (#[trigger] old(self).free_blocks@[k]).0 as int,
                    old(self).free_blocks@[k].1 as int,
                ),
        ensures
            (b.offset as int == old(self).spec_buffer_len() && final(self).spec_buffer_len()
                == old(self).spec_buffer_len() + size && (forall|k: int|
                0 <= k < old(self).free_blocks@.len() ==> ((#[trigger] old(
                    self,
                ).free_blocks@[k]).1 as int) < size)) || (exists|k: int|
                0 <= k < old(self).free_blocks@.len() && (#[trigger] old(
                    self,
                ).free_blocks@[k]).1 >= size && b.offset == old(self).free_blocks@[k].0 && (
                forall|k2: int|
                    0 <= k2 < k ==> ((#[trigger] old(self).free_blocks@[k2]).1 as int) < size)
                && final(self).spec_buffer_len() == old(self).spec_buffer_len()),
            ranges_disjoint(b.offset as int, b.capacity as int, avoid@.0, avoid@.1),
            forall|k: int|
                0 <= k < final(self).free_blocks@.len() ==> ranges_disjoint(
                    avoid@.0,
                    avoid@.1,
                    (#[trigger] final(self).free_blocks@[k]).0 as int,
                    final(self).free_blocks@[k].1 as int,
                ),
            final(self).wf(),
            b.size == size && b.capacity == size,
            b.offset + b.capacity <= final(self).spec_buffer_len(),
            final(self).used@ == old(self).used@,
            final(self).spec_resource_id() == old(self).spec_resource_id(),
            final(self).spec_buffer_len() <= usize::MAX,
            forall|i: int|
                0 <= i < old(self).spec_buffer_len() ==> final(self).resources@[i] == old(
                    self,
                ).resources@[i],
            old(self).spec_buffer_len() <= final(self).spec_buffer_len(),
            forall|p: int|
                0 <= p < final(self).used@.len() && (#[trigger] final(self).used@[p])
                    is Some ==> ranges_disjoint(
                    b.offset as int,
                    b.capacity as int,
                    final(self).used@[p].unwrap().offset as int,
                    final(self).used@[p].unwrap().capacity as int,
                ),
            forall|k: int|
                0 <= k < final(self).free_blocks@.len() ==> ranges_disjoint(
                    b.offset as int,
                    b.capacity as int,
                    (#[trigger] final(self).free_blocks@[k]).0 as int,
                    final(self).free_blocks@[k].1 as int,
                ),
    {
        let mut k: usize = 0;
        while k < self.free_blocks.len()
            invariant
                old(self).wf(),
                old(self).spec_buffer_len() + size <= usize::MAX,
                avoid@.0 >= 0 && avoid@.1 >= 0,
                avoid@.0 + avoid@.1 <= old(self).spec_buffer_len(),
                forall|k2: int|
                    0 <= k2 < old(self).free_blocks@.len() ==> ranges_disjoint(
                        avoid@.0,
                        avoid@.1,
                        (#[trigger] old(self).free_blocks@[k2]).0 as int,
                        old(self).free_blocks@[k2].1 as int,
                    ),
                *self == *old(self),
                k <= self.free_blocks@.len(),
                forall|k2: int|
                    0 <= k2 < k ==> ((#[trigger] old(self).free_blocks@[k2]).1 as int) < size,
            decreases self.free_blocks@.len() - k,
        {
            let (offset, block_size) = self.free_blocks[k];
            if block_size >= size {
                let _ = self.free_blocks.remove(k);
                self.free_blocks.push(((offset + size), (block_size - size)));
                let b = UsedBlock {
                    id: StandardVersionedIndexId::from_index_and_version(0, 0),
                    offset,
                    size,
                    capacity: size,
                };
                proof {
                    let pre = *old(self);
                    let prefb = pre.free_blocks@;
                    assert(self.free_blocks@ =~= prefb.remove(k as int).push(
                        ((offset + size) as usize, (block_size - size) as usize),
                    ));
                    assert forall|k2: int|
                        0 <= k2 < self.free_blocks@.len() implies ({
                        let e = #[trigger] self.free_blocks@[k2];
                        &&& e.0 + e.1 <= self.spec_buffer_len()
                        &&& ranges_disjoint(
                            b.offset as int,
                            b.capacity as int,
                            e.0 as int,
                            e.1 as int,
                        )
                    }) by {
                        if k2 < self.free_blocks@.len() - 1 {
                            let src = if k2 < k as int {
                                k2
                            } else {
                                k2 + 1
                            };
                            assert(self.free_blocks@[k2] == prefb[src]);
                            assert(ranges_disjoint(
                                prefb[k as int].0 as int,
                                prefb[k as int].1 as int,
                                prefb[src].0 as int,
                                prefb[src].1 as int,
                            ));
                        }
                    }
                    assert forall|p: int|
                        0 <= p < self.used@.len() && (#[trigger] self.used@[p])
                            is Some implies ranges_disjoint(
                        b.offset as int,
                        b.capacity as int,
                        self.used@[p].unwrap().offset as int,
                        self.used@[p].unwrap().capacity as int,
                    ) by {
                        assert(ranges_disjoint(
                            self.used@[p].unwrap().offset as int,
                            self.used@[p].unwrap().capacity as int,
                            prefb[k as int].0 as int,
                            prefb[k as int].1 as int,
                        ));
                    }
                    assert forall|p1: int, p2: int|
                        0 <= p1 < p2 < self.used@.len() && self.used@[p1] is Some
                            && self.used@[p2] is Some implies ranges_disjoint(
                        (#[trigger] self.used@[p1]).unwrap().offset as int,
                        self.used@[p1].unwrap().capacity as int,
                        (#[trigger] self.used@[p2]).unwrap().offset as int,
                        self.used@[p2].unwrap().capacity as int,
                    ) by {
                        assert(pre.used@[p1] == self.used@[p1]);
                    }
                    assert forall|p: int, k2: int|
                        0 <= p < self.used@.len() && self.used@[p] is Some && 0 <= k2
                            < self.free_blocks@.len() implies ranges_disjoint(
                        (#[trigger] self.used@[p]).unwrap().offset as int,
                        self.used@[p].unwrap().capacity as int,
                        (#[trigger] self.free_blocks@[k2]).0 as int,
                        self.free_blocks@[k2].1 as int,
                    ) by {
                        if k2 < self.free_blocks@.len() - 1 {
                            let src = if k2 < k as int {
                                k2
                            } else {
                                k2 + 1
                            };
                            assert(self.free_blocks@[k2] == prefb[src]);
                            assert(ranges_disjoint(
                                self.used@[p].unwrap().offset as int,
                                self.used@[p].unwrap().capacity as int,
                                prefb[src].0 as int,
                                prefb[src].1 as int,
                            ));
                        } else {
                            assert(ranges_disjoint(
                                self.used@[p].unwrap().offset as int,
                                self.used@[p].unwrap().capacity as int,
                                prefb[k as int].0 as int,
                                prefb[k as int].1 as int,
                            ));
                        }
                    }
                    assert forall|k1: int, k2: int|
                        0 <= k1 < k2 < self.free_blocks@.len() implies ranges_disjoint(
                        (#[trigger] self.free_blocks@[k1]).0 as int,
                        self.free_blocks@[k1].1 as int,
                        (#[trigger] self.free_blocks@[k2]).0 as int,
                        self.free_blocks@[k2].1 as int,
                    ) by {
                        let src1 = if k1 < k as int {
                            k1
                        } else {
                            k1 + 1
                        };
                        if k2 < self.free_blocks@.len() - 1 {
                            let src2 = if k2 < k as int {
                                k2
                            } else {
                                k2 + 1
                            };
                            assert(self.free_blocks@[k1] == prefb[src1]);
                            assert(self.free_blocks@[k2] == prefb[src2]);
                            assert(ranges_disjoint(
                                prefb[src1].0 as int,
                                prefb[src1].1 as int,
                                prefb[src2].0 as int,
                                prefb[src2].1 as int,
                            ));
                        } else {
                            assert(self.free_blocks@[k1] == prefb[src1]);
                            assert(ranges_disjoint(
                                prefb[src1].0 as int,
                                prefb[src1].1 as int,
                                prefb[k as int].0 as int,
                                prefb[k as int].1 as int,
                            ));
                        }
                    }
                    assert(self.wf());
                    assert(ranges_disjoint(
                        b.offset as int,
                        b.capacity as int,
                        avoid@.0,
                        avoid@.1,
                    ));
                    assert forall|k2: int|
                        0 <= k2 < self.free_blocks@.len() implies ranges_disjoint(
                        avoid@.0,
                        avoid@.1,
                        (#[trigger] self.free_blocks@[k2]).0 as int,
                        self.free_blocks@[k2].1 as int,
                    ) by {
                        if k2 < self.free_blocks@.len() - 1 {
                            let src = if k2 < k as int {
                                k2
                            } else {
                                k2 + 1
                            };
                            assert(self.free_blocks@[k2] == prefb[src]);
                        }
                    }
                }
                return b;
            }
            k = k + 1;
        }
        let offset = self.resources.len();
        let mut grown: usize = 0;
        while grown < size
            invariant
                old(self).wf(),
                self.used@ == old(self).used@,
                self.free_blocks@ == old(self).free_blocks@,
                self.resource_id == old(self).resource_id,
                offset == old(self).spec_buffer_len(),
                offset + size <= usize::MAX,
                grown <= size,
                self.resources@.len() == offset + grown,
                forall|i: int|
                    0 <= i < offset ==> self.resources@[i] == old(self).resources@[i],
            decreases size - grown,
        {
            self.resources.push(None);
            grown = grown + 1;
        }
        proof {
            assert forall|p: int|
                0 <= p < self.used@.len() && (#[trigger] self.used@[p]) is Some implies self.block_ok(
                self.used@[p].unwrap(),
            ) by {
                let bb = self.used@[p].unwrap();
                assert(old(self).block_ok(bb));
                assert forall|i: int|
                    0 <= i < bb.size implies (#[trigger] self.resources@[bb.offset + i])
                    is Some by {
                    assert(self.resources@[bb.offset + i] == old(self).resources@[bb.offset
                        + i]);
                }
            }
            assert(self.wf());
        }
        UsedBlock {
            id: StandardVersionedIndexId::from_index_and_version(0, 0),
            offset,
            size,
            capacity: size,
        }
    }

    /// Returns a no longer used range to the free list, absorbing the free
    /// ranges that end where it starts or start where it ends, so adjacent
    /// free blocks coalesce.
    fn free_block(&mut self, block: &UsedBlock)
        requires
            old(self).wf(),
            block.offset + block.capacity <= old(self).spec_buffer_len(),
            forall|p: int|
                0 <= p < old(self).used@.len() && (#[trigger] old(self).used@[p])
                    is Some ==> ranges_disjoint(
                    block.offset as int,
                    block.capacity as int,
                    old(self).used@[p].unwrap().offset as int,
                    old(self).used@[p].unwrap().capacity as int,
                ),
            forall|k: int|
                0 <= k < old(self).free_blocks@.len() ==> ranges_disjoint(
                    block.offset as int,
                    block.capacity as int,
                    (#[trigger] old(self).free_blocks@[k]).0 as int,
                    old(self).free_blocks@[k].1 as int,
                ),
        ensures
            final(self).wf(),
            final(self).used@ == old(self).used@,
            final(self).resources@ == old(self).resources@,
            final(self).spec_resource_id() == old(self).spec_resource_id(),
            exists|k: int|
                0 <= k < final(self).free_blocks@.len() && ({
                    let merged = #[trigger] final(self).free_blocks@[k];
                    &&& merged.0 <= block.offset
                    &&& block.offset + block.capacity <= merged.0 + merged.1
                    &&& (forall|k0: int|
                        0 <= k0 < old(self).free_blocks@.len() && ((#[trigger] old(
                            self,
                        ).free_blocks@[k0]).1 as int) > 0 && (old(self).free_blocks@[k0].0
                            + old(self).free_blocks@[k0].1 == block.offset || old(
                            self,
                        ).free_blocks@[k0].0 as int == block.offset + block.capacity)
                            ==> merged.0 <= old(self).free_blocks@[k0].0 && old(
                            self,
                        ).free_blocks@[k0].0 + old(self).free_blocks@[k0].1 <= merged.0
                            + merged.1)
                }),
    {
        let ghost pre = *old(self);
        let ghost prefb = pre.free_blocks@;
        let buffer_len = self.resources.len();
        let block_end = block.offset + block.capacity;
        let mut kept: Vec<(usize, usize)> = Vec::new();
        let ghost mut kept_src: Seq<int> = Seq::empty();
        let mut new_offset = block.offset;
        let mut new_end = block_end;
        let mut k: usize = 0;
        let free_count = self.free_blocks.len();
        while k < free_count
            invariant
                pre.wf(),
                prefb == pre.free_blocks@,
                self.free_blocks@ == prefb,
                self.resources@ == pre.resources@,
                self.used@ == pre.used@,
                self.resource_id == pre.resource_id,
                buffer_len as int == pre.spec_buffer_len(),
                block.offset + block.capacity <= pre.spec_buffer_len(),
                block_end == block.offset + block.capacity,
                forall|k2: int|
                    0 <= k2 < prefb.len() ==> ranges_disjoint(
                        block.offset as int,
                        block.capacity as int,
                        (#[trigger] prefb[k2]).0 as int,
                        prefb[k2].1 as int,
                    ),
                free_count == prefb.len(),
                k <= free_count,
                new_offset <= block.offset,
                block_end <= new_end,
                new_end <= pre.spec_buffer_len(),
                new_offset == block.offset || (exists|k0: int|
                    0 <= k0 < k && (#[trigger] prefb[k0]) == (
                        new_offset,
                        (block.offset - new_offset) as usize,
                    ) && prefb[k0].1 > 0),
                new_end == block_end || (exists|k0: int|
                    0 <= k0 < k && (#[trigger] prefb[k0]) == (
                        block_end as usize,
                        (new_end - block_end) as usize,
                    ) && prefb[k0].1 > 0),
                forall|k0: int|
                    0 <= k0 < k && ((#[trigger] prefb[k0]).1 as int) > 0 && prefb[k0].0
                        + prefb[k0].1 == block.offset ==> new_offset == prefb[k0].0,
                forall|k0: int|
                    0 <= k0 < k && ((#[trigger] prefb[k0]).1 as int) > 0 && prefb[k0].0 as int
                        == block_end as int ==> new_end as int == prefb[k0].0 + prefb[k0].1,
                kept_src.len() == kept@.len(),
                forall|i: int|
                    0 <= i < kept_src.len() ==> 0 <= #[trigger] kept_src[i] < k && kept@[i]
                        == prefb[kept_src[i]] && !(prefb[kept_src[i]].1 > 0 && prefb[
                        kept_src[i]].0 + prefb[kept_src[i]].1 == block.offset) && !(prefb[
                        kept_src[i]].1 > 0 && prefb[kept_src[i]].0 == block_end),
                forall|i1: int, i2: int|
                    0 <= i1 < i2 < kept_src.len() ==> #[trigger] kept_src[i1] < #[trigger] kept_src[i2],
            decreases free_count - k,
        {
            let (free_offset, free_size) = self.free_blocks[k];
            proof {
                assert(prefb[k as int] == (free_offset, free_size));
                assert(pre.free_blocks@[k as int] == (free_offset, free_size));
                assert(free_offset as int + free_size as int <= pre.spec_buffer_len());
            }
            if free_size > 0 && free_offset + free_size == block.offset {
                new_offset = free_offset;
                proof {
                    assert(prefb[k as int] == (
                        new_offset,
                        (block.offset - new_offset) as usize,
                    ));
                    assert(prefb[k as int].1 > 0);
                }
            } else if free_size > 0 && free_offset == block_end {
                new_end = free_offset + free_size;
                proof {
                    assert(prefb[k as int] == (
                        block_end as usize,
                        (new_end - block_end) as usize,
                    ));
                    assert(prefb[k as int].1 > 0);
                }
            } else {
                kept.push((free_offset, free_size));
                proof {
                    kept_src = kept_src.push(k as int);
                    assert(kept@[kept@.len() - 1] == prefb[k as int]);
                }
            }
            k = k + 1;
        }
        kept.push((new_offset, (new_end - new_offset)));
        self.free_blocks = kept;
        proof {
            let post = *self;
            let m = post.free_blocks@.len() as int;
            let merged_off = new_offset as int;
            let merged_cap = new_end - new_offset;
            assert(post.free_blocks@[m - 1] == (new_offset, (new_end - new_offset) as usize));
            assert forall|i1: int|
                0 <= i1 < m - 1 implies #[trigger] post.free_blocks@[i1] == prefb[kept_src[i1]]
                && 0 <= kept_src[i1] < prefb.len() by {
                assert(post.free_blocks@[i1] == kept@[i1]);
            }
            assert forall|i1: int|
                0 <= i1 < m - 1 implies ranges_disjoint(
                (#[trigger] post.free_blocks@[i1]).0 as int,
                post.free_blocks@[i1].1 as int,
                merged_off,
                merged_cap,
            ) by {
                let s1 = kept_src[i1];
                let e1 = prefb[s1];
                assert(ranges_disjoint(
                    block.offset as int,
                    block.capacity as int,
                    e1.0 as int,
                    e1.1 as int,
                ));
                if e1.1 > 0 {
                    if merged_off < block.offset {
                        let kp = choose|k0: int|
                            0 <= k0 < prefb.len() && (#[trigger] prefb[k0]) == (
                                new_offset,
                                (block.offset - new_offset) as usize,
                            ) && prefb[k0].1 > 0;
                        assert(kp != s1);
                        assert(ranges_disjoint(
                            prefb[kp].0 as int,
                            prefb[kp].1 as int,
                            e1.0 as int,
                            e1.1 as int,
                        ));
                    }
                    if (new_end as int) > block_end as int {
                        let ks = choose|k0: int|
                            0 <= k0 < prefb.len() && (#[trigger] prefb[k0]) == (
                                block_end as usize,
                                (new_end - block_end) as usize,
                            ) && prefb[k0].1 > 0;
                        assert(ks != s1);
                        assert(ranges_disjoint(
                            prefb[ks].0 as int,
                            prefb[ks].1 as int,
                            e1.0 as int,
                            e1.1 as int,
                        ));
                    }
                }
            }
            assert forall|i1: int, i2: int|
                0 <= i1 < i2 < m implies ranges_disjoint(
                (#[trigger] post.free_blocks@[i1]).0 as int,
                post.free_blocks@[i1].1 as int,
                (#[trigger] post.free_blocks@[i2]).0 as int,
                post.free_blocks@[i2].1 as int,
            ) by {
                if i2 < m - 1 {
                    let s1 = kept_src[i1];
                    let s2 = kept_src[i2];
                    assert(s1 < s2);
                    assert(ranges_disjoint(
                        prefb[s1].0 as int,
                        prefb[s1].1 as int,
                        prefb[s2].0 as int,
                        prefb[s2].1 as int,
                    ));
                }
            }
            assert forall|p: int, k2: int|
                0 <= p < post.used@.len() && post.used@[p] is Some && 0 <= k2
                    < post.free_blocks@.len() implies ranges_disjoint(
                (#[trigger] post.used@[p]).unwrap().offset as int,
                post.used@[p].unwrap().capacity as int,
                (#[trigger] post.free_blocks@[k2]).0 as int,
                post.free_blocks@[k2].1 as int,
            ) by {
                let ub = post.used@[p].unwrap();
                if k2 < m - 1 {
                    let s1 = kept_src[k2];
                    assert(ranges_disjoint(
                        ub.offset as int,
                        ub.capacity as int,
                        prefb[s1].0 as int,
                        prefb[s1].1 as int,
                    ));
                } else {
                    assert(ranges_disjoint(
                        ub.offset as int,
                        ub.capacity as int,
                        block.offset as int,
                        block.capacity as int,
                    ));
                    if merged_off < block.offset {
                        let kp = choose|k0: int|
                            0 <= k0 < prefb.len() && (#[trigger] prefb[k0]) == (
                                new_offset,
                                (block.offset - new_offset) as usize,
                            ) && prefb[k0].1 > 0;
                        assert(ranges_disjoint(
                            ub.offset as int,
                            ub.capacity as int,
                            prefb[kp].0 as int,
                            prefb[kp].1 as int,
                        ));
                    }
                    if (new_end as int) > block_end as int {
                        let ks = choose|k0: int|
                            0 <= k0 < prefb.len() && (#[trigger] prefb[k0]) == (
                                block_end as usize,
                                (new_end - block_end) as usize,
                            ) && prefb[k0].1 > 0;
                        assert(ranges_disjoint(
                            ub.offset as int,
                            ub.capacity as int,
                            prefb[ks].0 as int,
                            prefb[ks].1 as int,
                        ));
                    }
                }
            }
            assert forall|k2: int|
                0 <= k2 < post.free_blocks@.len() implies (#[trigger] post.free_blocks@[k2]).0
                + post.free_blocks@[k2].1 <= post.spec_buffer_len() by {
                if k2 < m - 1 {
                    let s1 = kept_src[k2];
                    assert(prefb[s1].0 + prefb[s1].1 <= pre.spec_buffer_len());
                }
            }
            assert(post.wf());
        }
    }

    /// Unlinks the block for `index`, if any, and returns its range to the
    /// free list.  The buffer contents stay as they were.
    fn unlink_block(&mut self, index: usize)
        requires
            old(self).wf(),
        ensures
            final(self).wf(),
            final(self).spec_get_at(index as int) is None,
            forall|p: int|
                p != index as int ==> final(self).spec_block(p) == old(self).spec_block(p),
            final(self).resources@ == old(self).resources@,
            final(self).spec_resource_id() == old(self).spec_resource_id(),
            forall|p: int|
                p != index as int ==> final(self).spec_get_at(p) == old(self).spec_get_at(p),
    {
        if index >= self.used.len() {
            return ;
        }
        let existing = self.used[index];
        match existing {
            Some(block) => {
                self.used[index] = None;
                proof {
                    assert(self.used@ =~= old(self).used@.update(index as int, None));
                    assert forall|p: int|
                        0 <= p < self.used@.len() && (#[trigger] self.used@[p])
                            is Some implies ranges_disjoint(
                        block.offset as int,
                        block.capacity as int,
                        self.used@[p].unwrap().offset as int,
                        self.used@[p].unwrap().capacity as int,
                    ) by {
                        assert(p != index as int);
                        assert(old(self).used@[p] == self.used@[p]);
                    }
                    assert(self.wf());
                }
                self.free_block(&block);
            },
            None => {},
        }
    }

    /// Stores `values` as the slice for `id`'s index, replacing any earlier
    /// block; the old range is freed for reuse.
    pub fn insert_slice(&mut self, id: StandardVersionedIndexId, values: Vec<T>)
        requires
            old(self).wf(),
            old(self).spec_buffer_len() + values@.len() <= usize::MAX,
        ensures
            final(self).wf(),
            final(self).spec_get_at(id.spec_index()) == Some(values@),
            final(self).spec_stored_id_at(id.spec_index()) == id,
            forall|p: int|
                p != id.spec_index() ==> final(self).spec_get_at(p) == old(self).spec_get_at(
                    p,
                ),
            final(self).spec_resource_id() == old(self).spec_resource_id(),
    {
        proof {
            id.lemma_fields_in_range();
        }
        let index = id.index();
        self.unlink_block(index);
        let ghost unlinked = *self;
        let total = values.len();
        let block = self.allocate_block(total, Ghost((0int, 0int)));
        let ghost allocated = *self;
        let mut vals = values;
        let mut remaining = total;
        while remaining > 0
            invariant
                allocated.wf(),
                total == values@.len(),
                allocated.spec_buffer_len() <= usize::MAX,
                remaining <= total,
                vals@ == values@.subrange(0, remaining as int),
                block.size == total && block.capacity == total,
                block.offset + total <= allocated.spec_buffer_len(),
                self.used@ == allocated.used@,
                self.free_blocks@ == allocated.free_blocks@,
                self.resource_id == allocated.resource_id,
                self.resources@.len() == allocated.resources@.len(),
                forall|i: int|
                    0 <= i < self.resources@.len() && !(block.offset <= i < block.offset
                        + total) ==> self.resources@[i] == allocated.resources@[i],
                forall|i: int|
                    remaining <= i < total ==> self.resources@[block.offset + i] == Some(
                        values@[i],
                    ),
            decreases remaining,
        {
            let v = match vals.pop() {
                Some(v) => v,
                None => vstd::pervasive::unreached(),
            };
            remaining = remaining - 1;
            self.resources[block.offset + remaining] = Some(v);
            proof {
                assert(vals@ =~= values@.subrange(0, remaining as int));
            }
        }
        while self.used.len() < index + 1
            invariant
                index <= MAX_INDEX,
                self.used@.len() >= allocated.used@.len(),
                self.used@.len() == allocated.used@.len() || self.used@.len() <= index + 1,
                forall|p: int|
                    0 <= p < allocated.used@.len() ==> #[trigger] self.used@[p]
                        == allocated.used@[p],
                forall|p: int|
                    allocated.used@.len() <= p < self.used@.len() ==> (
                    #[trigger] self.used@[p]) is None,
                self.free_blocks@ == allocated.free_blocks@,
                self.resource_id == allocated.resource_id,
                self.resources@.len() == allocated.resources@.len(),
                forall|i: int|
                    0 <= i < self.resources@.len() && !(block.offset <= i < block.offset
                        + total) ==> self.resources@[i] == allocated.resources@[i],
                forall|i: int|
                    0 <= i < total ==> self.resources@[block.offset + i] == Some(values@[i]),
            decreases index + 1 - self.used@.len(),
        {
            self.used.push(None);
        }
        let linked = UsedBlock { id, offset: block.offset, size: total, capacity: block.capacity };
        self.used[index] = Some(linked);
        proof {
            let post = *self;
            assert(allocated.used@ == unlinked.used@);
            assert forall|p: int|
                0 <= p < post.used@.len() && p != index as int implies post.used@[p] == unlinked.spec_block(
                p,
            ) by {}
            assert forall|p: int|
                0 <= p < post.used@.len() && (#[trigger] post.used@[p]) is Some implies post.block_ok(
                post.used@[p].unwrap(),
            ) && post.used@[p].unwrap().id.spec_index() == p by {
                let bb = post.used@[p].unwrap();
                if p == index as int {
                    assert forall|i: int|
                        0 <= i < bb.size implies (#[trigger] post.resources@[bb.offset + i])
                        is Some by {
                        assert(post.resources@[bb.offset + i] == Some(values@[i]));
                    }
                } else {
                    assert(unlinked.spec_block(p) == Some(bb));
                    assert(allocated.block_ok(bb));
                    assert(ranges_disjoint(
                        block.offset as int,
                        block.capacity as int,
                        bb.offset as int,
                        bb.capacity as int,
                    ));
                    assert forall|i: int|
                        0 <= i < bb.size implies (#[trigger] post.resources@[bb.offset + i])
                        is Some by {
                        assert(post.resources@[bb.offset + i] == allocated.resources@[bb.offset
                            + i]);
                    }
                }
            }
            assert forall|p1: int, p2: int|
                0 <= p1 < p2 < post.used@.len() && post.used@[p1] is Some && post.used@[p2]
                    is Some implies ranges_disjoint(
                (#[trigger] post.used@[p1]).unwrap().offset as int,
                post.used@[p1].unwrap().capacity as int,
                (#[trigger] post.used@[p2]).unwrap().offset as int,
                post.used@[p2].unwrap().capacity as int,
            ) by {
                if p1 != index as int && p2 != index as int {
                    assert(post.used@[p1] == allocated.used@[p1]);
                    assert(post.used@[p2] == allocated.used@[p2]);
                } else {
                    let other = if p1 == index as int {
                        p2
                    } else {
                        p1
                    };
                    assert(post.used@[other] is Some);
                    assert(other < allocated.used@.len());
                    assert(post.used@[other] == allocated.used@[other]);
                    assert(ranges_disjoint(
                        block.offset as int,
                        block.capacity as int,
                        allocated.used@[other].unwrap().offset as int,
                        allocated.used@[other].unwrap().capacity as int,
                    ));
                }
            }
            assert forall|p: int, k: int|
                0 <= p < post.used@.len() && post.used@[p] is Some && 0 <= k
                    < post.free_blocks@.len() implies ranges_disjoint(
                (#[trigger] post.used@[p]).unwrap().offset as int,
                post.used@[p].unwrap().capacity as int,
                (#[trigger] post.free_blocks@[k]).0 as int,
                post.free_blocks@[k].1 as int,
            ) by {
                if p != index as int {
                    assert(post.used@[p] is Some);
                    assert(p < allocated.used@.len());
                    assert(post.used@[p] == allocated.used@[p]);
                } else {
                    assert(ranges_disjoint(
                        block.offset as int,
                        block.capacity as int,
                        post.free_blocks@[k].0 as int,
                        post.free_blocks@[k].1 as int,
                    ));
                }
            }
            assert(post.wf());
            assert(post.spec_get_at(index as int) == Some(post.block_seq(linked)));
            assert(post.block_seq(linked) =~= values@);
            assert forall|p: int|
                p != id.spec_index() implies #[trigger] post.spec_get_at(p)
                == old(self).spec_get_at(p) by {
                if 0 <= p < post.used@.len() && post.used@[p] is Some {
                    let bb = post.used@[p].unwrap();
                    assert(p < allocated.used@.len());
                    assert(allocated.used@[p] == Some(bb));
                    assert(unlinked.spec_block(p) == Some(bb));
                    assert(ranges_disjoint(
                        block.offset as int,
                        block.capacity as int,
                        bb.offset as int,
                        bb.capacity as int,
                    ));
                    assert(post.block_seq(bb) =~= unlinked.block_seq(bb));
                    assert(unlinked.spec_get_at(p) == old(self).spec_get_at(p));
                } else {
                    if 0 <= p < post.used@.len() {
                        if p < allocated.used@.len() {
                            assert(unlinked.spec_block(p) == post.used@[p]);
                        } else {
                            assert(unlinked.spec_block(p) is None);
                        }
                    } else {
                        assert(unlinked.spec_block(p) is None || !(0 <= p));
                    }
                    assert(unlinked.spec_get_at(p) is None);
                    assert(old(self).spec_get_at(p) is None);
                }
            }
        }
    }

    /// Removes the slice for `id`'s index, if any; its range is freed for
    /// reuse.
    pub fn remove(&mut self, id: StandardVersionedIndexId)
        requires
            old(self).wf(),
        ensures
            final(self).wf(),
            final(self).spec_get_at(id.spec_index()) is None,
            forall|p: int|
                p != id.spec_index() ==> final(self).spec_get_at(p) == old(self).spec_get_at(
                    p,
                ),
            final(self).spec_resource_id() == old(self).spec_resource_id(),
    {
        proof {
            id.lemma_fields_in_range();
        }
        self.unlink_block(id.index());
    }

    /// The slice stored for `id`'s index, if any, as element references in
    /// block order.
    pub fn get(&self, id: StandardVersionedIndexId) -> (r: Option<Vec<&T>>)
        requires
            self.wf(),
        ensures
            match r {
                Some(refs) => self.spec_get(id) is Some && refs@.len()
                    == self.spec_get(id).unwrap().len() && (forall|i: int|
                    0 <= i < refs@.len() ==> *(#[trigger] refs@[i]) == self.spec_get(
                        id,
                    ).unwrap()[i]),
                None => self.spec_get(id) is None,
            },
    {
        proof {
            id.lemma_fields_in_range();
        }
        let index = id.index();
        if index >= self.used.len() {
            return None;
        }
        let buffer_len = self.resources.len();
        match self.used[index] {
            Some(block) => {
                let mut out: Vec<&T> = Vec::new();
                let mut i: usize = 0;
                while i < block.size
                    invariant
                        self.wf(),
                        self.spec_buffer_len() == buffer_len as int,
                        self.spec_block(index as int) == Some(block),
                        self.block_ok(block),
                        i <= block.size,
                        out@.len() == i,
                        forall|j: int|
                            0 <= j < i ==> *(#[trigger] out@[j]) == self.block_seq(block)[j],
                    decreases block.size - i,
                {
                    match &self.resources[block.offset + i] {
                        Some(v) => {
                            out.push(v);
                        },
                        None => {
                            return vstd::pervasive::unreached();
                        },
                    }
                    i = i + 1;
                }
                Some(out)
            },
            None => None,
        }
    }
}


impl<T> IdMappedResourceSliceStorage<T> {
    /// Makes room for `additional_size` more components in `index`'s block:
    /// in place when the capacity or an adjacent free range suffices,
    /// otherwise by moving the contents into a freshly allocated block.
    /// The stored slice is unchanged either way.
    fn reserve_for_index(&mut self, index: usize, additional_size: usize) -> (b: UsedBlock)
        requires
            old(self).wf(),
            old(self).spec_block(index as int) is Some,
            old(self).spec_buffer_len() + old(self).spec_block(index as int).unwrap().size
                + additional_size <= usize::MAX,
        ensures
            final(self).wf(),
            final(self).spec_block(index as int) == Some(b),
            b.id == old(self).spec_block(index as int).unwrap().id,
            b.size == old(self).spec_block(index as int).unwrap().size,
            b.size + additional_size <= b.capacity,
            final(self).spec_buffer_len() <= usize::MAX,
            final(self).spec_get_at(index as int) == old(self).spec_get_at(index as int),
            forall|p: int|
                p != index as int ==> final(self).spec_block(p) == old(self).spec_block(p),
            forall|p: int|
                p != index as int ==> final(self).spec_get_at(p) == old(self).spec_get_at(p),
            final(self).spec_resource_id() == old(self).spec_resource_id(),
            old(self).spec_block(index as int).unwrap().capacity as int >= old(
                self,
            ).spec_block(index as int).unwrap().size + additional_size ==> b == old(
                self,
            ).spec_block(index as int).unwrap() && *final(self) == *old(self),
            ({
                let ob = old(self).spec_block(index as int).unwrap();
                ((ob.capacity as int) < ob.size + additional_size && (exists|k: int|
                    0 <= k < old(self).free_blocks@.len() && ((#[trigger] old(
                        self,
                    ).free_blocks@[k]).0 as int) == ob.offset + ob.capacity && ob.size
                        + additional_size - ob.capacity <= old(self).free_blocks@[k].1 as int))
                    ==> b.offset == ob.offset && final(self).spec_buffer_len() == old(
                    self,
                ).spec_buffer_len()
            }),
    {
        let buffer_len = self.resources.len();
        let block = match self.used[index] {
            Some(block) => block,
            None => vstd::pervasive::unreached(),
        };
        if block.capacity - block.size >= additional_size {
            proof {
                assert(self.spec_get_at(index as int) =~= old(self).spec_get_at(
                    index as int,
                ));
            }
            return block;
        }
        let needed = block.size + additional_size - block.capacity;
        let adjacent = block.offset + block.capacity;
        let mut k: usize = 0;
        let free_count = self.free_blocks.len();
        while k < free_count
            invariant
                old(self).wf(),
                *self == *old(self),
                buffer_len as int == old(self).spec_buffer_len(),
                old(self).spec_block(index as int) == Some(block),
                old(self).spec_buffer_len() + block.size + additional_size <= usize::MAX,
                block.size <= block.capacity,
                block.capacity < block.size + additional_size,
                needed == block.size + additional_size - block.capacity,
                adjacent == block.offset + block.capacity,
                free_count == self.free_blocks@.len(),
                k <= free_count,
                forall|k2: int|
                    0 <= k2 < k ==> !(((#[trigger] old(self).free_blocks@[k2]).0 as int)
                        == adjacent as int && needed <= old(self).free_blocks@[k2].1 as int),
            decreases free_count - k,
        {
            let (free_offset, free_size) = self.free_blocks[k];
            if free_offset == adjacent && free_size >= needed {
                let _ = self.free_blocks.remove(k);
                if free_size > needed {
                    self.free_blocks.push(((adjacent + needed), (free_size - needed)));
                }
                let expanded = UsedBlock {
                    id: block.id,
                    offset: block.offset,
                    size: block.size,
                    capacity: block.capacity + needed,
                };
                self.used[index] = Some(expanded);
                proof {
                    let pre = *old(self);
                    let prefb = pre.free_blocks@;
                    assert(self.used@ =~= pre.used@.update(index as int, Some(expanded)));
                    if free_size > needed {
                        assert(self.free_blocks@ =~= prefb.remove(k as int).push(
                            (((adjacent + needed) as usize), ((free_size - needed) as usize)),
                        ));
                    } else {
                        assert(self.free_blocks@ =~= prefb.remove(k as int));
                    }
                    assert forall|k2: int|
                        0 <= k2 < self.free_blocks@.len() implies ({
                        let e = #[trigger] self.free_blocks@[k2];
                        &&& e.0 + e.1 <= self.spec_buffer_len()
                        &&& ranges_disjoint(
                            expanded.offset as int,
                            expanded.capacity as int,
                            e.0 as int,
                            e.1 as int,
                        )
                    }) by {
                        let shorter = if free_size > needed {
                            self.free_blocks@.len() - 1
                        } else {
                            self.free_blocks@.len() as int
                        };
                        if k2 < shorter {
                            let src = if k2 < k as int {
                                k2
                            } else {
                                k2 + 1
                            };
                            assert(self.free_blocks@[k2] == prefb[src]);
                            assert(ranges_disjoint(
                                prefb[k as int].0 as int,
                                prefb[k as int].1 as int,
                                prefb[src].0 as int,
                                prefb[src].1 as int,
                            ));
                            assert(ranges_disjoint(
                                block.offset as int,
                                block.capacity as int,
                                prefb[src].0 as int,
                                prefb[src].1 as int,
                            ));
                        }
                    }
                    assert forall|p1: int, p2: int|
                        0 <= p1 < p2 < self.used@.len() && self.used@[p1] is Some
                            && self.used@[p2] is Some implies ranges_disjoint(
                        (#[trigger] self.used@[p1]).unwrap().offset as int,
                        self.used@[p1].unwrap().capacity as int,
                        (#[trigger] self.used@[p2]).unwrap().offset as int,
                        self.used@[p2].unwrap().capacity as int,
                    ) by {
                        if p1 != index as int && p2 != index as int {
                            assert(self.used@[p1] == pre.used@[p1]);
                            assert(self.used@[p2] == pre.used@[p2]);
                        } else {
                            let other = if p1 == index as int {
                                p2
                            } else {
                                p1
                            };
                            assert(self.used@[other] == pre.used@[other]);
                            let ob = pre.used@[other].unwrap();
                            assert(ranges_disjoint(
                                block.offset as int,
                                block.capacity as int,
                                ob.offset as int,
                                ob.capacity as int,
                            ));
                            assert(ranges_disjoint(
                                ob.offset as int,
                                ob.capacity as int,
                                prefb[k as int].0 as int,
                                prefb[k as int].1 as int,
                            ));
                        }
                    }
                    assert forall|p: int, k2: int|
                        0 <= p < self.used@.len() && self.used@[p] is Some && 0 <= k2
                            < self.free_blocks@.len() implies ranges_disjoint(
                        (#[trigger] self.used@[p]).unwrap().offset as int,
                        self.used@[p].unwrap().capacity as int,
                        (#[trigger] self.free_blocks@[k2]).0 as int,
                        self.free_blocks@[k2].1 as int,
                    ) by {
                        let shorter = if free_size > needed {
                            self.free_blocks@.len() - 1
                        } else {
                            self.free_blocks@.len() as int
                        };
                        if p != index as int {
                            assert(self.used@[p] == pre.used@[p]);
                        }
                        if k2 < shorter {
                            let src = if k2 < k as int {
                                k2
                            } else {
                                k2 + 1
                            };
                            assert(self.free_blocks@[k2] == prefb[src]);
                            if p != index as int {
                                assert(ranges_disjoint(
                                    pre.used@[p].unwrap().offset as int,
                                    pre.used@[p].unwrap().capacity as int,
                                    prefb[src].0 as int,
                                    prefb[src].1 as int,
                                ));
                            }
                        } else {
                            if p != index as int {
                                assert(ranges_disjoint(
                                    pre.used@[p].unwrap().offset as int,
                                    pre.used@[p].unwrap().capacity as int,
                                    prefb[k as int].0 as int,
                                    prefb[k as int].1 as int,
                                ));
                            }
                        }
                    }
                    assert forall|k1: int, k2: int|
                        0 <= k1 < k2 < self.free_blocks@.len() implies ranges_disjoint(
                        (#[trigger] self.free_blocks@[k1]).0 as int,
                        self.free_blocks@[k1].1 as int,
                        (#[trigger] self.free_blocks@[k2]).0 as int,
                        self.free_blocks@[k2].1 as int,
                    ) by {
                        let shorter = if free_size > needed {
                            self.free_blocks@.len() - 1
                        } else {
                            self.free_blocks@.len() as int
                        };
                        let src1 = if k1 < k as int {
                            k1
                        } else {
                            k1 + 1
                        };
                        assert(self.free_blocks@[k1] == prefb[src1]);
                        if k2 < shorter {
                            let src2 = if k2 < k as int {
                                k2
                            } else {
                                k2 + 1
                            };
                            assert(self.free_blocks@[k2] == prefb[src2]);
                            assert(ranges_disjoint(
                                prefb[src1].0 as int,
                                prefb[src1].1 as int,
                                prefb[src2].0 as int,
                                prefb[src2].1 as int,
                            ));
                        } else {
                            assert(ranges_disjoint(
                                prefb[src1].0 as int,
                                prefb[src1].1 as int,
                                prefb[k as int].0 as int,
                                prefb[k as int].1 as int,
                            ));
                        }
                    }
                    assert(self.wf());
                    assert(self.spec_get_at(index as int) =~~= old(self).spec_get_at(
                        index as int,
                    ));
                    assert forall|p: int|
                        p != index as int implies #[trigger] self.spec_get_at(p) == old(
                        self,
                    ).spec_get_at(p) by {}
                }
                return expanded;
            }
            k = k + 1;
        }
        let ghost before_move = *self;
        self.used[index] = None;
        proof {
            assert forall|p: int|
                0 <= p < self.used@.len() && (#[trigger] self.used@[p])
                    is Some implies ranges_disjoint(
                block.offset as int,
                block.capacity as int,
                self.used@[p].unwrap().offset as int,
                self.used@[p].unwrap().capacity as int,
            ) by {
                assert(p != index as int);
                assert(self.used@[p] == before_move.used@[p]);
            }
            assert(self.wf());
        }
        let new_block = self.allocate_block(
            block.size + additional_size,
            Ghost((block.offset as int, block.capacity as int)),
        );
        let ghost after_alloc = *self;
        let mut i: usize = 0;
        while i < block.size
            invariant
                after_alloc.wf(),
                i <= block.size,
                block.size <= block.capacity,
                block.offset + block.capacity <= after_alloc.spec_buffer_len(),
                new_block.size == block.size + additional_size,
                new_block.capacity == new_block.size,
                new_block.offset + new_block.capacity <= after_alloc.spec_buffer_len(),
                after_alloc.spec_buffer_len() <= usize::MAX,
                ranges_disjoint(
                    new_block.offset as int,
                    new_block.capacity as int,
                    block.offset as int,
                    block.capacity as int,
                ),
                forall|j: int|
                    0 <= j < block.size ==> (#[trigger] after_alloc.resources@[block.offset
                        + j]) is Some,
                self.used@ == after_alloc.used@,
                self.free_blocks@ == after_alloc.free_blocks@,
                self.resource_id == after_alloc.resource_id,
                self.resources@.len() == after_alloc.resources@.len(),
                forall|j: int|
                    0 <= j < self.resources@.len() && !(new_block.offset <= j < new_block.offset
                        + new_block.capacity) && !(block.offset <= j < block.offset
                        + block.capacity) ==> self.resources@[j] == after_alloc.resources@[j],
                forall|j: int|
                    0 <= j < i ==> (#[trigger] self.resources@[new_block.offset + j])
                        == after_alloc.resources@[block.offset + j],
                forall|j: int|
                    i <= j < block.size ==> (#[trigger] self.resources@[block.offset + j])
                        == after_alloc.resources@[block.offset + j],
            decreases block.size - i,
        {
            let moved = self.resources[block.offset + i].take();
            self.resources[new_block.offset + i] = moved;
            i = i + 1;
        }
        let relinked = UsedBlock {
            id: block.id,
            offset: new_block.offset,
            size: block.size,
            capacity: new_block.capacity,
        };
        self.used[index] = Some(relinked);
        proof {
            let pre_link = *self;
            assert(self.used@ =~= after_alloc.used@.update(index as int, Some(relinked)));
            assert forall|p: int|
                0 <= p < self.used@.len() && (#[trigger] self.used@[p]) is Some implies self.block_ok(
                self.used@[p].unwrap(),
            ) && self.used@[p].unwrap().id.spec_index() == p by {
                let bb = self.used@[p].unwrap();
                if p == index as int {
                    assert(old(self).spec_block(index as int).unwrap().id.spec_index()
                        == index as int);
                    assert forall|j: int|
                        0 <= j < bb.size implies (#[trigger] self.resources@[bb.offset + j])
                        is Some by {
                        assert(self.resources@[new_block.offset + j]
                            == after_alloc.resources@[block.offset + j]);
                    }
                } else {
                    assert(after_alloc.used@[p] == self.used@[p]);
                    assert(after_alloc.block_ok(bb));
                    assert(ranges_disjoint(
                        new_block.offset as int,
                        new_block.capacity as int,
                        bb.offset as int,
                        bb.capacity as int,
                    ));
                    assert(ranges_disjoint(
                        block.offset as int,
                        block.capacity as int,
                        bb.offset as int,
                        bb.capacity as int,
                    ));
                    assert forall|j: int|
                        0 <= j < bb.size implies (#[trigger] self.resources@[bb.offset + j])
                        is Some by {
                        assert(self.resources@[bb.offset + j] == after_alloc.resources@[
                            bb.offset + j]);
                    }
                }
            }
            assert forall|p1: int, p2: int|
                0 <= p1 < p2 < self.used@.len() && self.used@[p1] is Some && self.used@[p2]
                    is Some implies ranges_disjoint(
                (#[trigger] self.used@[p1]).unwrap().offset as int,
                self.used@[p1].unwrap().capacity as int,
                (#[trigger] self.used@[p2]).unwrap().offset as int,
                self.used@[p2].unwrap().capacity as int,
            ) by {
                if p1 != index as int && p2 != index as int {
                    assert(self.used@[p1] == after_alloc.used@[p1]);
                    assert(self.used@[p2] == after_alloc.used@[p2]);
                } else {
                    let other = if p1 == index as int {
                        p2
                    } else {
                        p1
                    };
                    assert(self.used@[other] == after_alloc.used@[other]);
                    assert(ranges_disjoint(
                        new_block.offset as int,
                        new_block.capacity as int,
                        after_alloc.used@[other].unwrap().offset as int,
                        after_alloc.used@[other].unwrap().capacity as int,
                    ));
                }
            }
            assert forall|p: int, k2: int|
                0 <= p < self.used@.len() && self.used@[p] is Some && 0 <= k2
                    < self.free_blocks@.len() implies ranges_disjoint(
                (#[trigger] self.used@[p]).unwrap().offset as int,
                self.used@[p].unwrap().capacity as int,
                (#[trigger] self.free_blocks@[k2]).0 as int,
                self.free_blocks@[k2].1 as int,
            ) by {
                if p != index as int {
                    assert(self.used@[p] == after_alloc.used@[p]);
                } else {
                    assert(ranges_disjoint(
                        new_block.offset as int,
                        new_block.capacity as int,
                        after_alloc.free_blocks@[k2].0 as int,
                        after_alloc.free_blocks@[k2].1 as int,
                    ));
                }
            }
            assert(self.wf());
            assert(self.spec_get_at(index as int) is Some);
            assert(self.block_seq(relinked) =~= old(self).block_seq(block));
            assert(self.spec_get_at(index as int) == old(self).spec_get_at(index as int));
            assert forall|p: int|
                p != index as int implies #[trigger] self.spec_get_at(p) == old(
                self,
            ).spec_get_at(p) by {
                if 0 <= p < self.used@.len() && self.used@[p] is Some {
                    let bb = self.used@[p].unwrap();
                    assert(after_alloc.used@[p] == Some(bb));
                    assert(old(self).spec_block(p) == Some(bb));
                    assert(self.block_seq(bb) =~= old(self).block_seq(bb));
                }
            }
        }
        let ghost linked_state = *self;
        self.free_block(&block);
        proof {
            assert(self.used@ == linked_state.used@);
            assert(self.resources@ == linked_state.resources@);
            assert forall|p: int| true implies #[trigger] self.spec_get_at(p)
                == linked_state.spec_get_at(p) by {
                if 0 <= p < self.used@.len() && self.used@[p] is Some {
                    assert(self.block_seq(self.used@[p].unwrap()) =~= linked_state.block_seq(
                        linked_state.used@[p].unwrap(),
                    ));
                }
            }
            assert(self.spec_block(index as int) == Some(relinked));
        }
        relinked
    }

    /// Appends one component to `id`'s slice, growing its block; an id
    /// without a block receives a fresh one-element block.
    pub fn push(&mut self, id: StandardVersionedIndexId, value: T)
        requires
            old(self).wf(),
            2 * old(self).spec_buffer_len() + 1 <= usize::MAX,
        ensures
            final(self).wf(),
            final(self).spec_get_at(id.spec_index()) == Some(
                match old(self).spec_get_at(id.spec_index()) {
                    Some(s) => s.push(value),
                    None => seq![value],
                },
            ),
            forall|p: int|
                p != id.spec_index() ==> final(self).spec_get_at(p) == old(self).spec_get_at(
                    p,
                ),
            final(self).spec_resource_id() == old(self).spec_resource_id(),
    {
        proof {
            id.lemma_fields_in_range();
        }
        let index = id.index();
        let missing = index >= self.used.len() || self.used[index].is_none();
        if missing {
            let mut single: Vec<T> = Vec::new();
            single.push(value);
            self.insert_slice(id, single);
            proof {
                assert(final(self).spec_get_at(id.spec_index()).unwrap() =~= seq![value]);
            }
            return ;
        }
        proof {
            let bb = self.spec_block(index as int).unwrap();
            assert(bb.size <= bb.capacity);
            assert(bb.offset + bb.capacity <= self.spec_buffer_len());
        }
        let grown = self.reserve_for_index(index, 1);
        let ghost reserved = *self;
        self.resources[grown.offset + grown.size] = Some(value);
        let extended = UsedBlock {
            id: grown.id,
            offset: grown.offset,
            size: grown.size + 1,
            capacity: grown.capacity,
        };
        self.used[index] = Some(extended);
        proof {
            let post = *self;
            assert(post.used@ =~= reserved.used@.update(index as int, Some(extended)));
            assert forall|p: int|
                0 <= p < post.used@.len() && (#[trigger] post.used@[p]) is Some implies post.block_ok(
                post.used@[p].unwrap(),
            ) && post.used@[p].unwrap().id.spec_index() == p by {
                let bb = post.used@[p].unwrap();
                if p == index as int {
                    assert(old(self).spec_block(index as int).unwrap().id.spec_index()
                        == index as int);
                    assert forall|j: int|
                        0 <= j < bb.size implies (#[trigger] post.resources@[bb.offset + j])
                        is Some by {
                        if j < grown.size {
                            assert(post.resources@[bb.offset + j] == reserved.resources@[
                                bb.offset + j]);
                            assert(reserved.block_ok(grown));
                        }
                    }
                } else {
                    assert(post.used@[p] == reserved.used@[p]);
                    assert(reserved.block_ok(bb));
                    assert(ranges_disjoint(
                        grown.offset as int,
                        grown.capacity as int,
                        bb.offset as int,
                        bb.capacity as int,
                    ));
                    assert forall|j: int|
                        0 <= j < bb.size implies (#[trigger] post.resources@[bb.offset + j])
                        is Some by {
                        assert(post.resources@[bb.offset + j] == reserved.resources@[bb.offset
                            + j]);
                    }
                }
            }
            assert forall|p1: int, p2: int|
                0 <= p1 < p2 < post.used@.len() && post.used@[p1] is Some && post.used@[p2]
                    is Some implies ranges_disjoint(
                (#[trigger] post.used@[p1]).unwrap().offset as int,
                post.used@[p1].unwrap().capacity as int,
                (#[trigger] post.used@[p2]).unwrap().offset as int,
                post.used@[p2].unwrap().capacity as int,
            ) by {
                if p1 != index as int && p2 != index as int {
                    assert(post.used@[p1] == reserved.used@[p1]);
                    assert(post.used@[p2] == reserved.used@[p2]);
                } else {
                    let other = if p1 == index as int {
                        p2
                    } else {
                        p1
                    };
                    assert(post.used@[other] == reserved.used@[other]);
                    assert(ranges_disjoint(
                        grown.offset as int,
                        grown.capacity as int,
                        reserved.used@[other].unwrap().offset as int,
                        reserved.used@[other].unwrap().capacity as int,
                    ));
                }
            }
            assert forall|p: int, k2: int|
                0 <= p < post.used@.len() && post.used@[p] is Some && 0 <= k2
                    < post.free_blocks@.len() implies ranges_disjoint(
                (#[trigger] post.used@[p]).unwrap().offset as int,
                post.used@[p].unwrap().capacity as int,
                (#[trigger] post.free_blocks@[k2]).0 as int,
                post.free_blocks@[k2].1 as int,
            ) by {
                if p != index as int {
                    assert(post.used@[p] == reserved.used@[p]);
                } else {
                    assert(ranges_disjoint(
                        grown.offset as int,
                        grown.capacity as int,
                        reserved.free_blocks@[k2].0 as int,
                        reserved.free_blocks@[k2].1 as int,
                    ));
                }
            }
            assert(post.wf());
            assert(post.block_seq(extended) =~= reserved.block_seq(grown).push(value));
            assert(reserved.spec_get_at(index as int) == old(self).spec_get_at(
                index as int,
            ));
            assert(post.spec_get_at(id.spec_index()) == Some(
                old(self).spec_get_at(id.spec_index()).unwrap().push(value),
            ));
            assert forall|p: int|
                p != id.spec_index() implies #[trigger] post.spec_get_at(p) == old(
                self,
            ).spec_get_at(p) by {
                if 0 <= p < post.used@.len() && post.used@[p] is Some {
                    let bb = post.used@[p].unwrap();
                    assert(reserved.spec_block(p) == Some(bb));
                    assert(post.block_seq(bb) =~= reserved.block_seq(bb));
                    assert(reserved.spec_get_at(p) == old(self).spec_get_at(p));
                }
            }
        }
    }
}

} // verus!
