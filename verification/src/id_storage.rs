//! Generational handle allocation and handle-keyed maps.
//!
//! [`IdStorage`] hands out versioned index ids and reclaims them through an
//! embedded free list: a freed slot keeps its version but stores the next
//! free slot's position in its index field, so reissued handles come back
//! with a bumped version and compare unequal to stale ones.
use vstd::prelude::*;

verus! {

use vstd::seq_lib::*;
use vstd::set_lib::*;
use crate::versioned_index_id::{StandardVersionedIndexId, MAX_INDEX};

/// Sentinel stored in the index field of the last free slot.
const FREE_LIST_END: usize = 16777215;

/// A distinct sequence of positions below `n` has at most `n` entries.
pub(crate) proof fn lemma_distinct_in_range_bound(s: Seq<int>, n: int)
    requires
        s.no_duplicates(),
        forall|k: int| 0 <= k < s.len() ==> 0 <= #[trigger] s[k] < n,
        0 <= n,
    ensures
        s.len() <= n,
{
    s.unique_seq_to_set();
    lemma_int_range(0, n);
    lemma_len_subset(s.to_set(), set_int_range(0, n));
    assert(s.to_set().subset_of(set_int_range(0, n))) by {
        assert forall|x: int| s.to_set().contains(x) implies set_int_range(0, n).contains(
            x,
        ) by {
            let k = choose|k: int| 0 <= k < s.len() && s[k] == x;
        }
    }
}

/// The live handles among the first `n` slots of `s`, in slot order.  A slot
/// is live when the handle it stores has that slot's position as its index.
pub closed spec fn live_prefix(s: Seq<StandardVersionedIndexId>, n: int) -> Seq<
    StandardVersionedIndexId,
>
    decreases n,
{
    if n <= 0 {
        Seq::empty()
    } else {
        live_prefix(s, n - 1) + (if s[n - 1].spec_index() == n - 1 {
            seq![s[n - 1]]
        } else {
            Seq::empty()
        })
    }
}

/// Number of non-live slots among the first `n`.
spec fn nonlive_below(s: Seq<StandardVersionedIndexId>, n: int) -> int
    decreases n,
{
    if n <= 0 {
        0
    } else {
        nonlive_below(s, n - 1) + (if s[n - 1].spec_index() == n - 1 {
            0int
        } else {
            1int
        })
    }
}

/// Every slot is live or non-live, so the two counts split the range.
proof fn lemma_live_plus_nonlive(s: Seq<StandardVersionedIndexId>, n: int)
    requires
        0 <= n,
    ensures
        live_prefix(s, n).len() + nonlive_below(s, n) == n,
    decreases n,
{
    if n > 0 {
        lemma_live_plus_nonlive(s, n - 1);
    }
}

/// The non-live count is the cardinality of the non-live position set.
proof fn lemma_nonlive_set(s: Seq<StandardVersionedIndexId>, n: int)
    requires
        0 <= n,
    ensures
        ({
            let nl = Set::new(|p: int| 0 <= p < n && s[p].spec_index() != p);
            nl.finite() && nl.len() == nonlive_below(s, n)
        }),
    decreases n,
{
    broadcast use vstd::set::group_set_axioms;

    let nl = Set::new(|p: int| 0 <= p < n && s[p].spec_index() != p);
    if n == 0 {
        assert(nl =~= Set::empty());
    } else {
        lemma_nonlive_set(s, n - 1);
        let prev = Set::new(|p: int| 0 <= p < n - 1 && s[p].spec_index() != p);
        if s[n - 1].spec_index() == n - 1 {
            assert(nl =~= prev);
        } else {
            assert(nl =~= prev.insert(n - 1));
            assert(!prev.contains(n - 1));
        }
    }
}

/// The live prefix is never longer than the range it was drawn from.
proof fn lemma_live_prefix_len(s: Seq<StandardVersionedIndexId>, n: int)
    ensures
        live_prefix(s, n).len() <= (if n >= 0 {
            n
        } else {
            0
        }),
    decreases n,
{
    if n > 0 {
        lemma_live_prefix_len(s, n - 1);
    }
}

/// A handle is in the live prefix exactly when its own slot stores it.
proof fn lemma_live_prefix_contains(
    s: Seq<StandardVersionedIndexId>,
    n: int,
    id: StandardVersionedIndexId,
)
    requires
        n <= s.len(),
    ensures
        live_prefix(s, n).contains(id) <==> (0 <= id.spec_index() < n && s[id.spec_index()]
            == id),
    decreases n,
{
    if n > 0 {
        lemma_live_prefix_contains(s, n - 1, id);
        let prev = live_prefix(s, n - 1);
        let cur = live_prefix(s, n);
        if 0 <= id.spec_index() < n && s[id.spec_index()] == id {
            if id.spec_index() == n - 1 {
                assert(cur[prev.len() as int] == id);
            } else {
                let i = choose|i: int| 0 <= i < prev.len() && prev[i] == id;
                assert(cur[i] == id);
            }
        }
        if cur.contains(id) {
            let k = choose|k: int| 0 <= k < cur.len() && cur[k] == id;
            if k < prev.len() {
                assert(prev[k] == id);
                assert(prev.contains(id));
            } else {
                assert(cur[k] == s[n - 1]);
            }
        }
    }
}

/// The live prefix never lists a handle twice: handles in it are keyed by
/// their index field, which equals the slot position they came from.
proof fn lemma_live_prefix_distinct(s: Seq<StandardVersionedIndexId>, n: int)
    requires
        n <= s.len(),
    ensures
        live_prefix(s, n).no_duplicates(),
        forall|k: int| 0 <= k < live_prefix(s, n).len() ==> 0 <= (
        #[trigger] live_prefix(s, n)[k]).spec_index() < n && s[live_prefix(s, n)[k].spec_index()]
            == live_prefix(s, n)[k],
        forall|k1: int, k2: int|
            0 <= k1 < k2 < live_prefix(s, n).len() ==> live_prefix(s, n)[k1].spec_index()
                < live_prefix(s, n)[k2].spec_index(),
    decreases n,
{
    if n > 0 {
        lemma_live_prefix_distinct(s, n - 1);
        let prev = live_prefix(s, n - 1);
        let cur = live_prefix(s, n);
        if s[n - 1].spec_index() == n - 1 {
            assert(cur == prev.push(s[n - 1]));
            assert forall|k1: int, k2: int| 0 <= k1 < k2 < cur.len() implies cur[k1]
                != cur[k2] && cur[k1].spec_index() < cur[k2].spec_index() by {
                if k2 == cur.len() - 1 {
                    assert(cur[k1] == prev[k1]);
                    assert(prev[k1].spec_index() < n - 1);
                    assert(cur[k2].spec_index() == n - 1);
                } else {
                    assert(cur[k1] == prev[k1] && cur[k2] == prev[k2]);
                }
            }
        } else {
            assert(cur == prev);
        }
    }
}

/// A generational allocator for one id space.  Slots hold the handle they
/// issued while live; freed slots are threaded into a chain whose links live
/// in the stored handles' index fields.
pub struct IdStorage {
    ids: Vec<StandardVersionedIndexId>,
    free_list_head: usize,
    free_list_size: usize,
    free_list: Ghost<Seq<int>>,
}

impl IdStorage {
    /// Number of slots ever issued, live or free.
    pub closed spec fn spec_slot_count(self) -> int {
        self.ids@.len() as int
    }

    /// Number of slots currently on the free list.
    pub closed spec fn spec_free_count(self) -> int {
        self.free_list@.len() as int
    }

    /// Number of live handles.
    pub open spec fn spec_len(self) -> int {
        self.spec_slot_count() - self.spec_free_count()
    }

    /// Position of the first free slot, or -1 when none is free.
    pub closed spec fn spec_free_head(self) -> int {
        if self.free_list@.len() == 0 {
            -1
        } else {
            self.free_list@[0]
        }
    }

    /// The version currently stored at slot `p`.
    pub closed spec fn spec_slot_version(self, p: int) -> int {
        self.ids@[p].spec_version()
    }

    /// Slot `p` currently backs a live handle.
    pub closed spec fn spec_slot_live(self, p: int) -> bool {
        0 <= p < self.ids@.len() && self.ids@[p].spec_index() == p
    }

    /// A handle is contained when the slot at its index stores exactly it.
    pub closed spec fn spec_contains(self, id: StandardVersionedIndexId) -> bool {
        0 <= id.spec_index() < self.ids@.len() && self.ids@[id.spec_index()] == id
    }

    /// The live handles in slot order.
    pub closed spec fn spec_live_ids(self) -> Seq<StandardVersionedIndexId> {
        live_prefix(self.ids@, self.ids@.len() as int)
    }

    /// Structural invariant: the free chain lists exactly the non-live
    /// slots, each link stores the next free position (or the end sentinel)
    /// in its index field, and no position repeats.
    pub closed spec fn wf(self) -> bool {
        let fl = self.free_list@;
        let n = self.ids@.len() as int;
        &&& n <= MAX_INDEX as int
        &&& fl.len() <= n
        &&& self.free_list_size == fl.len()
        &&& self.free_list_head as int == (if fl.len() == 0 {
            FREE_LIST_END as int
        } else {
            fl[0]
        })
        &&& (forall|k: int| 0 <= k < fl.len() ==> 0 <= #[trigger] fl[k] < n)
        &&& (forall|k: int|
            0 <= k < fl.len() ==> (#[trigger] self.ids@[fl[k]]).spec_index() == (if k + 1
                < fl.len() {
                fl[k + 1]
            } else {
                FREE_LIST_END as int
            }))
        &&& fl.no_duplicates()
        &&& (forall|p: int|
            0 <= p < n && (#[trigger] self.ids@[p]).spec_index() != p ==> fl.contains(p))
    }

    /// Every slot on the free chain stores a handle whose index differs from
    /// the slot's own position, so free slots are never live.
    proof fn lemma_free_slots_not_live(self)
        requires
            self.wf(),
        ensures
            forall|k: int|
                0 <= k < self.free_list@.len() ==> (#[trigger] self.ids@[self.free_list@[k]]).spec_index()
                    != self.free_list@[k],
    {
        let fl = self.free_list@;
        assert forall|k: int| 0 <= k < fl.len() implies (#[trigger] self.ids@[fl[k]]).spec_index()
            != fl[k] by {
            if k + 1 < fl.len() {
                assert(fl[k + 1] != fl[k]);
            } else {
                assert(self.ids@[fl[k]].spec_index() == FREE_LIST_END as int);
                assert(fl[k] < self.ids@.len() <= MAX_INDEX as int);
            }
        }
    }

    /// A live slot is not on the free chain.
    proof fn lemma_live_slot_not_free(self, p: int)
        requires
            self.wf(),
            0 <= p < self.spec_slot_count(),
            self.ids@[p].spec_index() == p,
        ensures
            !self.free_list@.contains(p),
    {
        self.lemma_free_slots_not_live();
        if self.free_list@.contains(p) {
            let k = choose|k: int| 0 <= k < self.free_list@.len() && self.free_list@[k] == p;
        }
    }

    /// An empty storage.
    pub fn new() -> (r: Self)
        ensures
            r.wf(),
            r.spec_slot_count() == 0,
            r.spec_free_count() == 0,
            r.spec_len() == 0,
            forall|id: StandardVersionedIndexId| !r.spec_contains(id),
    {
        Self {
            ids: Vec::new(),
            free_list_head: FREE_LIST_END,
            free_list_size: 0,
            free_list: Ghost(Seq::empty()),
        }
    }

    /// Number of live handles.
    pub fn len(&self) -> (r: usize)
        requires
            self.wf(),
        ensures
            r == self.spec_len(),
    {
        self.ids.len() - self.free_list_size
    }

    /// Number of slots ever issued, live or free.
    pub fn slot_count(&self) -> (r: usize)
        ensures
            r == self.spec_slot_count(),
    {
        self.ids.len()
    }

    /// Issues a handle: reuses the head of the free list with a bumped
    /// version, or appends a fresh slot with version 0.
    pub fn reserve(&mut self) -> (r: StandardVersionedIndexId)
        requires
            old(self).wf(),
            old(self).spec_free_count() > 0 || old(self).spec_slot_count() < MAX_INDEX as int,
        ensures
            final(self).wf(),
            !old(self).spec_contains(r),
            final(self).spec_contains(r),
            forall|id: StandardVersionedIndexId|
                id != r ==> final(self).spec_contains(id) == old(self).spec_contains(id),
            final(self).spec_len() == old(self).spec_len() + 1,
            final(self).spec_slot_live(r.spec_index()),
            forall|p: int|
                p != r.spec_index() ==> final(self).spec_slot_live(p) == old(
                    self,
                ).spec_slot_live(p),
            old(self).spec_free_count() == 0 ==> {
                &&& r.spec_index() == old(self).spec_slot_count()
                &&& r.spec_version() == 0
                &&& final(self).spec_slot_count() == old(self).spec_slot_count() + 1
                &&& final(self).spec_free_count() == 0
            },
            old(self).spec_free_count() > 0 ==> {
                &&& r.spec_index() == old(self).spec_free_head()
                &&& r.spec_version() == (old(self).spec_slot_version(old(self).spec_free_head())
                    + 1) % 256
                &&& final(self).spec_slot_count() == old(self).spec_slot_count()
                &&& final(self).spec_free_count() == old(self).spec_free_count() - 1
            },
            old(self).spec_free_count() > 0 ==> !old(self).spec_slot_live(
                old(self).spec_free_head(),
            ),
            forall|p: int|
                0 <= p < old(self).spec_slot_count() && p != r.spec_index()
                    ==> final(self).spec_slot_version(p) == old(self).spec_slot_version(p),
    {
        if self.free_list_head != FREE_LIST_END {
            let ghost fl = self.free_list@;
            let index = self.free_list_head;
            let indexed_id = self.ids[index];
            proof {
                indexed_id.lemma_fields_in_range();
                self.lemma_free_slots_not_live();
            }
            self.free_list_head = indexed_id.index();
            let id = StandardVersionedIndexId::from_index_and_version(
                index,
                indexed_id.version(),
            ).next_version_id();
            self.ids[index] = id;
            self.free_list_size = self.free_list_size - 1;
            self.free_list = Ghost(fl.drop_first());
            proof {
                let post = *self;
                let pre_ids = old(self).ids@;
                assert forall|k: int|
                    0 <= k < post.free_list@.len() implies (
                #[trigger] post.ids@[post.free_list@[k]]).spec_index() == (if k + 1
                    < post.free_list@.len() {
                    post.free_list@[k + 1]
                } else {
                    FREE_LIST_END as int
                }) by {
                    assert(post.free_list@[k] == fl[k + 1]);
                    assert(fl[k + 1] != fl[0]);
                    if k + 1 < post.free_list@.len() {
                        assert(post.free_list@[k + 1] == fl[k + 2]);
                    }
                }
                assert forall|p: int|
                    0 <= p < post.ids@.len() && (#[trigger] post.ids@[p]).spec_index()
                        != p implies post.free_list@.contains(p) by {
                    assert(p != index);
                    assert(pre_ids[p] == post.ids@[p]);
                    let k = choose|k: int| 0 <= k < fl.len() && fl[k] == p;
                    assert(k != 0);
                    assert(post.free_list@[k - 1] == p);
                }
                assert forall|id2: StandardVersionedIndexId| id2 != id implies post.spec_contains(
                    id2,
                ) == old(self).spec_contains(id2) by {
                    if id2.spec_index() == index {
                        assert(pre_ids[index as int].spec_index() != index);
                    }
                }
            }
            return id;
        } else {
            let id = StandardVersionedIndexId::from_index(self.ids.len());
            self.ids.push(id);
            proof {
                let post = *self;
                let n = old(self).ids@.len() as int;
                assert(post.ids@ == old(self).ids@.push(id));
                assert forall|k: int|
                    0 <= k < post.free_list@.len() implies (
                #[trigger] post.ids@[post.free_list@[k]]).spec_index() == (if k + 1
                    < post.free_list@.len() {
                    post.free_list@[k + 1]
                } else {
                    FREE_LIST_END as int
                }) by {
                    assert(post.free_list@[k] < n);
                    assert(post.ids@[post.free_list@[k]] == old(self).ids@[post.free_list@[k]]);
                }
                assert forall|id2: StandardVersionedIndexId| id2 != id implies post.spec_contains(
                    id2,
                ) == old(self).spec_contains(id2) by {
                    if id2.spec_index() == n {
                        assert(post.ids@[n] == id);
                    }
                }
            }
            return id;
        }
    }

    /// Returns a live handle's slot to the free list.  The slot keeps the
    /// handle's version and stores the old free head in its index field.
    pub fn free(&mut self, id: StandardVersionedIndexId)
        requires
            old(self).wf(),
            old(self).spec_contains(id),
        ensures
            final(self).wf(),
            forall|id2: StandardVersionedIndexId|
                final(self).spec_contains(id2) == (old(self).spec_contains(id2) && id2 != id),
            final(self).spec_len() == old(self).spec_len() - 1,
            final(self).spec_slot_count() == old(self).spec_slot_count(),
            final(self).spec_free_count() == old(self).spec_free_count() + 1,
            final(self).spec_free_head() == id.spec_index(),
            final(self).spec_slot_version(id.spec_index()) == id.spec_version(),
            !final(self).spec_slot_live(id.spec_index()),
            forall|p: int|
                p != id.spec_index() ==> final(self).spec_slot_live(p) == old(
                    self,
                ).spec_slot_live(p),
            forall|p: int|
                0 <= p < old(self).spec_slot_count() && p != id.spec_index()
                    ==> final(self).spec_slot_version(p) == old(self).spec_slot_version(p),
    {
        let ghost fl = self.free_list@;
        let ghost n = self.ids@.len() as int;
        proof {
            id.lemma_fields_in_range();
            self.lemma_live_slot_not_free(id.spec_index());
            lemma_distinct_in_range_bound(seq![id.spec_index()] + fl, n);
            assert forall|k: int| 0 <= k < (seq![id.spec_index()] + fl).len() implies 0 <= (
            #[trigger] (seq![id.spec_index()] + fl)[k]) < n by {
                if k > 0 {
                    assert((seq![id.spec_index()] + fl)[k] == fl[k - 1]);
                }
            }
            assert((seq![id.spec_index()] + fl).no_duplicates());
        }
        let index = id.index();
        let new_slot = StandardVersionedIndexId::from_index_and_version(
            self.free_list_head,
            id.version(),
        );
        self.ids[index] = new_slot;
        self.free_list_head = index;
        self.free_list_size = self.free_list_size + 1;
        self.free_list = Ghost(seq![id.spec_index()] + fl);
        proof {
            let post = *self;
            let pre_ids = old(self).ids@;
            assert forall|k: int|
                0 <= k < post.free_list@.len() implies (
            #[trigger] post.ids@[post.free_list@[k]]).spec_index() == (if k + 1
                < post.free_list@.len() {
                post.free_list@[k + 1]
            } else {
                FREE_LIST_END as int
            }) by {
                if k == 0 {
                    assert(post.free_list@[0] == index as int);
                } else {
                    assert(post.free_list@[k] == fl[k - 1]);
                    assert(fl[k - 1] != index as int);
                    if k + 1 < post.free_list@.len() {
                        assert(post.free_list@[k + 1] == fl[k]);
                    }
                }
            }
            assert forall|p: int|
                0 <= p < n && (#[trigger] post.ids@[p]).spec_index() != p implies post.free_list@.contains(
                p,
            ) by {
                if p == index as int {
                    assert(post.free_list@[0] == p);
                } else {
                    let k = choose|k: int| 0 <= k < fl.len() && fl[k] == p;
                    assert(post.free_list@[k + 1] == p);
                }
            }
            assert forall|id2: StandardVersionedIndexId| post.spec_contains(id2) == (old(
                self,
            ).spec_contains(id2) && id2 != id) by {
                if id2.spec_index() == index {
                    assert(post.ids@[index as int] == new_slot);
                    if old(self).free_list@.len() == 0 {
                        assert(new_slot.spec_index() == FREE_LIST_END as int);
                    } else {
                        assert(new_slot.spec_index() == fl[0]);
                        assert(fl[0] != index as int);
                    }
                    assert(new_slot.spec_index() != index as int);
                }
            }
        }
    }

    /// A handle is contained exactly when its slot still stores it.
    pub fn contains(&self, id: StandardVersionedIndexId) -> (r: bool)
        ensures
            r == self.spec_contains(id),
    {
        proof {
            id.lemma_fields_in_range();
        }
        id.index() < self.ids.len() && self.ids[id.index()] == id
    }

    /// The live handles, in slot order.
    pub fn live_ids(&self) -> (r: Vec<StandardVersionedIndexId>)
        ensures
            r@ == self.spec_live_ids(),
    {
        let mut result: Vec<StandardVersionedIndexId> = Vec::new();
        let mut i: usize = 0;
        while i < self.ids.len()
            invariant
                i <= self.ids@.len(),
                result@ == live_prefix(self.ids@, i as int),
            decreases self.ids@.len() - i,
        {
            let id = self.ids[i];
            proof {
                id.lemma_fields_in_range();
            }
            if id.index() == i {
                result.push(id);
            }
            proof {
                assert(result@ =~= live_prefix(self.ids@, i + 1));
            }
            i = i + 1;
        }
        result
    }

    /// Id freshness: when a slot that held `id` is at the head of the free
    /// list, the handle reserved from it keeps the index but carries the
    /// next version, so it never equals the freed handle.  Only a full wrap
    /// of all 256 versions can reissue an equal handle.
    pub proof fn lemma_id_freshness(
        after_free: Self,
        id: StandardVersionedIndexId,
        id2: StandardVersionedIndexId,
    )
        requires
            after_free.wf(),
            after_free.spec_free_count() > 0,
            after_free.spec_free_head() == id.spec_index(),
            after_free.spec_slot_version(id.spec_index()) == id.spec_version(),
            id2.spec_index() == after_free.spec_free_head(),
            id2.spec_version() == (after_free.spec_slot_version(after_free.spec_free_head())
                + 1) % 256,
        ensures
            id2.spec_index() == id.spec_index(),
            id2 != id,
    {
        id.lemma_fields_in_range();
        assert(id2.spec_version() == (id.spec_version() + 1) % 256);
        assert(id2.spec_version() != id.spec_version());
    }

    /// One slot backs one handle: two contained handles that share an index
    /// are the same handle.
    pub proof fn lemma_contains_index_unique(
        self,
        a: StandardVersionedIndexId,
        b: StandardVersionedIndexId,
    )
        requires
            self.spec_contains(a),
            self.spec_contains(b),
            a.spec_index() == b.spec_index(),
        ensures
            a == b,
    {
    }

    /// A contained handle's index addresses an issued slot, the slot is
    /// live, and it carries the handle's version.
    pub proof fn lemma_contains_bounds(self, id: StandardVersionedIndexId)
        requires
            self.spec_contains(id),
        ensures
            0 <= id.spec_index() < self.spec_slot_count(),
            self.spec_slot_live(id.spec_index()),
            self.spec_slot_version(id.spec_index()) == id.spec_version(),
    {
    }

    /// Size bounds that every well-formed storage obeys.
    pub proof fn lemma_bounds(self)
        requires
            self.wf(),
        ensures
            0 <= self.spec_len() <= self.spec_slot_count() <= MAX_INDEX as int,
            self.spec_live_ids().len() <= self.spec_slot_count(),
    {
        lemma_live_prefix_len(self.ids@, self.ids@.len() as int);
    }

    /// Iteration completeness: the live listing holds each contained handle
    /// exactly once, and nothing else.
    pub proof fn lemma_live_ids_complete(self)
        requires
            self.wf(),
        ensures
            forall|id: StandardVersionedIndexId|
                self.spec_live_ids().contains(id) <==> self.spec_contains(id),
            self.spec_live_ids().no_duplicates(),
            self.spec_live_ids().len() == self.spec_len(),
            forall|k1: int, k2: int|
                0 <= k1 < k2 < self.spec_live_ids().len() ==> self.spec_live_ids()[k1].spec_index()
                    < self.spec_live_ids()[k2].spec_index(),
    {
        broadcast use vstd::set::group_set_axioms;

        let n = self.ids@.len() as int;
        assert forall|id: StandardVersionedIndexId| self.spec_live_ids().contains(id)
            <==> self.spec_contains(id) by {
            lemma_live_prefix_contains(self.ids@, n, id);
            id.lemma_fields_in_range();
        }
        lemma_live_prefix_distinct(self.ids@, n);
        lemma_live_plus_nonlive(self.ids@, n);
        lemma_nonlive_set(self.ids@, n);
        let nl = Set::new(|p: int| 0 <= p < n && self.ids@[p].spec_index() != p);
        let fl = self.free_list@;
        self.lemma_free_slots_not_live();
        assert(nl =~= fl.to_set()) by {
            assert forall|p: int| #[trigger] nl.contains(p) implies fl.to_set().contains(
                p,
            ) by {
                assert(fl.contains(p));
            }
            assert forall|p: int| #[trigger] fl.to_set().contains(p) implies nl.contains(
                p,
            ) by {
                assert(fl.contains(p));
                let k = choose|k: int| 0 <= k < fl.len() && fl[k] == p;
            }
        }
        fl.unique_seq_to_set();
    }
}

/// Keeps a handle exactly when its index field equals its slot position;
/// this is the per-slot test that the live listing applies.
pub fn id_filter(p: (usize, &StandardVersionedIndexId)) -> (r: Option<
    StandardVersionedIndexId,
>)
    ensures
        r == (if p.1.spec_index() == p.0 {
            Some(*p.1)
        } else {
            None::<StandardVersionedIndexId>
        }),
{
    proof {
        p.1.lemma_fields_in_range();
    }
    if p.0 == p.1.index() {
        Some(*p.1)
    } else {
        None
    }
}

/// An [`IdStorage`] paired with a value buffer: each live handle owns the
/// value stored at its index.
pub struct IdMap<T> {
    ids: IdStorage,
    values: Vec<Option<T>>,
}

impl<T> IdMap<T> {
    /// Structural invariant: the buffer spans every slot and holds a value
    /// exactly at the live ones.
    pub closed spec fn wf(self) -> bool {
        &&& self.ids.wf()
        &&& self.values@.len() == self.ids.spec_slot_count()
        &&& (forall|p: int|
            0 <= p < self.values@.len() ==> ((#[trigger] self.values@[p]) is Some
                <==> self.ids.spec_slot_live(p)))
    }

    /// Number of slots ever issued.
    pub closed spec fn spec_slot_count(self) -> int {
        self.ids.spec_slot_count()
    }

    /// Number of live entries.
    pub closed spec fn spec_len(self) -> int {
        self.ids.spec_len()
    }

    /// Whether the map holds an entry for this handle.
    pub closed spec fn spec_contains(self, id: StandardVersionedIndexId) -> bool {
        self.ids.spec_contains(id)
    }

    /// The value stored for a handle, if it is live.
    pub closed spec fn spec_get(self, id: StandardVersionedIndexId) -> Option<T> {
        if self.ids.spec_contains(id) {
            self.values@[id.spec_index()]
        } else {
            None
        }
    }

    /// The live handles in slot order.
    pub closed spec fn spec_live_ids(self) -> Seq<StandardVersionedIndexId> {
        self.ids.spec_live_ids()
    }

    /// A contained handle always has a value.
    pub proof fn lemma_contains_get(self, id: StandardVersionedIndexId)
        requires
            self.wf(),
        ensures
            self.spec_contains(id) <==> self.spec_get(id) is Some,
    {
        if self.spec_contains(id) {
            id.lemma_fields_in_range();
        }
    }

    /// [`Self::lemma_contains_get`] over every handle at once.
    pub proof fn lemma_contains_get_all(self)
        requires
            self.wf(),
        ensures
            forall|id: StandardVersionedIndexId|
                self.spec_contains(id) <==> (#[trigger] self.spec_get(id)) is Some,
    {
        assert forall|id: StandardVersionedIndexId|
            self.spec_contains(id) <==> (#[trigger] self.spec_get(id)) is Some by {
            self.lemma_contains_get(id);
        }
    }

    /// An empty map.
    pub fn new() -> (r: Self)
        ensures
            r.wf(),
            r.spec_len() == 0,
            r.spec_slot_count() == 0,
            forall|id: StandardVersionedIndexId| !r.spec_contains(id),
            forall|id: StandardVersionedIndexId| r.spec_get(id) is None,
    {
        Self { ids: IdStorage::new(), values: Vec::new() }
    }

    /// Number of live entries.
    pub fn len(&self) -> (r: usize)
        requires
            self.wf(),
        ensures
            r == self.spec_len(),
    {
        self.ids.len()
    }

    /// Number of slots ever issued, live or free.
    pub fn slot_count(&self) -> (r: usize)
        ensures
            r == self.spec_slot_count(),
    {
        self.ids.slot_count()
    }

    /// Stores a value under a freshly reserved handle and hands both back.
    pub fn insert(&mut self, value: T) -> (r: (StandardVersionedIndexId, &T))
        requires
            old(self).wf(),
            old(self).spec_len() < old(self).spec_slot_count() || old(self).spec_slot_count()
                < MAX_INDEX as int,
        ensures
            final(self).wf(),
            !old(self).spec_contains(r.0),
            final(self).spec_contains(r.0),
            final(self).spec_get(r.0) == Some(value),
            *r.1 == value,
            forall|id: StandardVersionedIndexId|
                id != r.0 ==> final(self).spec_get(id) == old(self).spec_get(id),
            forall|id: StandardVersionedIndexId|
                id != r.0 ==> final(self).spec_contains(id) == old(self).spec_contains(id),
            final(self).spec_len() == old(self).spec_len() + 1,
            final(self).spec_slot_count() <= old(self).spec_slot_count() + 1,
    {
        let id = self.ids.reserve();
        proof {
            id.lemma_fields_in_range();
        }
        let index = id.index();
        if self.values.len() <= index {
            self.values.push(None);
        }
        self.values[index] = Some(value);
        proof {
            assert(self.ids.spec_contains(id));
            assert forall|id2: StandardVersionedIndexId| id2 != id implies self.spec_get(id2)
                == old(self).spec_get(id2) by {
                id2.lemma_fields_in_range();
                if id2.spec_index() == index as int {
                    assert(!self.ids.spec_contains(id2));
                } else if 0 <= id2.spec_index() < old(self).values@.len() {
                    assert(old(self).values@[id2.spec_index()] == self.values@[id2.spec_index()]);
                }
            }
            assert forall|p: int|
                0 <= p < self.values@.len() implies ((#[trigger] self.values@[p]) is Some
                <==> self.ids.spec_slot_live(p)) by {
                if p < old(self).values@.len() && p != index as int {
                    assert(old(self).values@[p] == self.values@[p]);
                }
            }
        }
        let vref = match &self.values[index] {
            Some(v) => v,
            None => vstd::pervasive::unreached(),
        };
        (id, vref)
    }

    /// The value for a handle, if the map still contains it.
    pub fn get(&self, id: StandardVersionedIndexId) -> (r: Option<&T>)
        requires
            self.wf(),
        ensures
            match r {
                Some(v) => self.spec_get(id) == Some(*v),
                None => self.spec_get(id) is None,
            },
    {
        proof {
            id.lemma_fields_in_range();
        }
        if self.ids.contains(id) {
            match &self.values[id.index()] {
                Some(v) => Some(v),
                None => vstd::pervasive::unreached(),
            }
        } else {
            None
        }
    }

    /// Exclusive access to the value for a handle, if contained.
    pub fn get_mut(&mut self, id: StandardVersionedIndexId) -> (r: Option<&mut T>)
        requires
            old(self).wf(),
        ensures
            match r {
                Some(v) => {
                    &&& old(self).spec_get(id) == Some(*v)
                    &&& final(self).wf()
                    &&& final(self).spec_get(id) == Some(*final(v))
                    &&& forall|id2: StandardVersionedIndexId|
                        id2 != id ==> final(self).spec_get(id2) == old(self).spec_get(id2)
                    &&& forall|id2: StandardVersionedIndexId|
                        final(self).spec_contains(id2) == old(self).spec_contains(id2)
                    &&& final(self).spec_len() == old(self).spec_len()
                    &&& final(self).spec_slot_count() == old(self).spec_slot_count()
                },
                None => old(self).spec_get(id) is None && *final(self) == *old(self),
            },
    {
        proof {
            id.lemma_fields_in_range();
        }
        if self.ids.contains(id) {
            let index = id.index();
            match &mut self.values[index] {
                Some(v) => Some(v),
                None => vstd::pervasive::unreached(),
            }
        } else {
            None
        }
    }

    /// Releases a handle and moves its value out.
    pub fn remove(&mut self, id: StandardVersionedIndexId) -> (r: T)
        requires
            old(self).wf(),
            old(self).spec_contains(id),
        ensures
            final(self).wf(),
            Some(r) == old(self).spec_get(id),
            final(self).spec_get(id) is None,
            !final(self).spec_contains(id),
            forall|id2: StandardVersionedIndexId|
                id2 != id ==> final(self).spec_get(id2) == old(self).spec_get(id2),
            forall|id2: StandardVersionedIndexId|
                id2 != id ==> final(self).spec_contains(id2) == old(self).spec_contains(id2),
            final(self).spec_len() == old(self).spec_len() - 1,
            final(self).spec_slot_count() == old(self).spec_slot_count(),
    {
        proof {
            id.lemma_fields_in_range();
        }
        self.ids.free(id);
        let index = id.index();
        let taken = self.values[index].take();
        proof {
            assert forall|id2: StandardVersionedIndexId| id2 != id implies self.spec_get(id2)
                == old(self).spec_get(id2) by {
                id2.lemma_fields_in_range();
            }
        }
        match taken {
            Some(v) => v,
            None => vstd::pervasive::unreached(),
        }
    }

    /// Whether the map holds an entry for this handle.
    pub fn contains(&self, id: StandardVersionedIndexId) -> (r: bool)
        ensures
            r == self.spec_contains(id),
    {
        self.ids.contains(id)
    }

    /// The live entries as `(handle, value)` pairs in slot order.
    pub fn iter(&self) -> (r: Vec<(StandardVersionedIndexId, &T)>)
        requires
            self.wf(),
        ensures
            r@.len() == self.spec_live_ids().len(),
            forall|k: int|
                0 <= k < r@.len() ==> (#[trigger] r@[k]).0 == self.spec_live_ids()[k]
                    && self.spec_get(r@[k].0) == Some(*r@[k].1),
    {
        proof {
            self.ids.lemma_live_ids_complete();
        }
        let live = self.ids.live_ids();
        let mut result: Vec<(StandardVersionedIndexId, &T)> = Vec::new();
        let mut k: usize = 0;
        while k < live.len()
            invariant
                self.wf(),
                live@ == self.ids.spec_live_ids(),
                forall|id: StandardVersionedIndexId|
                    self.ids.spec_live_ids().contains(id) ==> self.ids.spec_contains(id),
                k <= live@.len(),
                result@.len() == k,
                forall|j: int|
                    0 <= j < k ==> (#[trigger] result@[j]).0 == live@[j] && self.spec_get(
                        result@[j].0,
                    ) == Some(*result@[j].1),
            decreases live@.len() - k,
        {
            let id = live[k];
            proof {
                assert(live@[k as int] == id);
                assert(live@.contains(id));
                assert(self.ids.spec_contains(id));
                id.lemma_fields_in_range();
                assert(self.values@[id.spec_index()] is Some);
            }
            let vref = match &self.values[id.index()] {
                Some(v) => v,
                None => vstd::pervasive::unreached(),
            };
            result.push((id, vref));
            k = k + 1;
        }
        result
    }

    /// One slot backs one handle: two contained handles that share an index
    /// are the same handle.
    pub proof fn lemma_contains_index_unique(
        self,
        a: StandardVersionedIndexId,
        b: StandardVersionedIndexId,
    )
        requires
            self.spec_contains(a),
            self.spec_contains(b),
            a.spec_index() == b.spec_index(),
        ensures
            a == b,
    {
        self.ids.lemma_contains_index_unique(a, b);
    }

    /// Size bounds that every well-formed map obeys.
    pub proof fn lemma_bounds(self)
        requires
            self.wf(),
        ensures
            0 <= self.spec_len() <= self.spec_slot_count() <= MAX_INDEX as int,
            self.spec_live_ids().len() <= self.spec_slot_count(),
    {
        self.ids.lemma_bounds();
    }

    /// Iteration completeness: the pairs handed out by [`Self::iter`] cover
    /// each live handle exactly once, and no other.
    pub proof fn lemma_iteration_complete(self)
        requires
            self.wf(),
        ensures
            forall|id: StandardVersionedIndexId|
                self.spec_live_ids().contains(id) <==> self.spec_contains(id),
            self.spec_live_ids().no_duplicates(),
            self.spec_live_ids().len() == self.spec_len(),
            forall|k1: int, k2: int|
                0 <= k1 < k2 < self.spec_live_ids().len() ==> self.spec_live_ids()[k1].spec_index()
                    < self.spec_live_ids()[k2].spec_index(),
    {
        self.ids.lemma_live_ids_complete();
    }
}

/// Holds at most one value; a tiny helper storage.
pub struct SimpleStorage<T> {
    data: Option<T>,
}

impl<T> SimpleStorage<T> {
    /// The stored value, if any.
    pub closed spec fn spec_data(self) -> Option<T> {
        self.data
    }

    /// An empty storage.
    pub fn new() -> (r: Self)
        ensures
            r.spec_data() is None,
    {
        Self { data: None }
    }

    /// Replaces the contents with `value` and hands a reference back.
    pub fn emplace(&mut self, value: T) -> (r: &T)
        ensures
            final(self).spec_data() == Some(value),
            *r == value,
    {
        self.data = Some(value);
        match &self.data {
            Some(v) => v,
            None => vstd::pervasive::unreached(),
        }
    }

    /// Drops the contents.
    pub fn reset(&mut self)
        ensures
            final(self).spec_data() is None,
    {
        self.data = None;
    }

    /// The stored value, if any.
    pub fn get(&mut self) -> (r: Option<&T>)
        ensures
            *final(self) == *old(self),
            match r {
                Some(v) => old(self).spec_data() == Some(*v),
                None => old(self).spec_data() is None,
            },
    {
        self.data.as_ref()
    }

    /// Exclusive access to the stored value, if any.
    pub fn get_mut(&mut self) -> (r: Option<&mut T>)
        ensures
            match r {
                Some(v) => old(self).spec_data() == Some(*v) && final(self).spec_data()
                    == Some(*final(v)),
                None => old(self).spec_data() is None && *final(self) == *old(self),
            },
    {
        self.data.as_mut()
    }
}

} // verus!
