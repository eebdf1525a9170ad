//! Sparse per-id component storage with the three-array discipline.
//!
//! Components sit densely in `resources`.  `forward[i]` records which source
//! id owns dense position `i`; `reverse[index(id)]` packs the dense position
//! of that id's component in its index field and a presence bit in its
//! version field.  Reclaimed dense positions are threaded into a free chain
//! through the index fields of their `forward` entries, so insertion reuses
//! holes before growing the dense array.
use vstd::prelude::*;

verus! {

use crate::id_storage::lemma_distinct_in_range_bound;
use crate::versioned_index_id::{StandardVersionedIndexId, MAX_INDEX};

broadcast use StandardVersionedIndexId::lemma_index_bounds;

/// Sentinel stored in the index field of the last free dense slot.
const FREE_LIST_END: usize = 16777215;

/// Maps source ids (normally entity ids) to exactly one component each.
pub struct IdMappedResourceStorage<T> {
    resources: Vec<Option<T>>,
    forward: Vec<StandardVersionedIndexId>,
    reverse: Vec<StandardVersionedIndexId>,
    free_list_head: usize,
    free_list: Ghost<Seq<int>>,
    resource_id: StandardVersionedIndexId,
}

impl<T> IdMappedResourceStorage<T> {
    /// Length of the dense component array, holes included.
    pub closed spec fn spec_dense_count(self) -> int {
        self.resources@.len() as int
    }

    /// Number of reclaimed dense positions awaiting reuse.
    pub closed spec fn spec_free_count(self) -> int {
        self.free_list@.len() as int
    }

    /// Number of live components.
    pub open spec fn spec_live_count(self) -> int {
        self.spec_dense_count() - self.spec_free_count()
    }

    /// Whether source index `p` has a component.
    pub closed spec fn spec_present(self, p: int) -> bool {
        0 <= p < self.reverse@.len() && self.reverse@[p].spec_version() == 1
    }

    /// The dense position of source index `p`'s component.
    pub closed spec fn spec_dense_at(self, p: int) -> int {
        self.reverse@[p].spec_index()
    }

    /// The id recorded for source index `p` when its component was first
    /// inserted.
    pub closed spec fn spec_stored_id_at(self, p: int) -> StandardVersionedIndexId {
        self.forward@[self.spec_dense_at(p)]
    }

    /// The component stored for source index `p`, if present.
    pub closed spec fn spec_get_at(self, p: int) -> Option<T> {
        if self.spec_present(p) {
            self.resources@[self.spec_dense_at(p)]
        } else {
            None
        }
    }

    /// The component stored for `id`.  Storage is keyed by the index field
    /// alone; versions of the same index share the slot.
    pub open spec fn spec_get(self, id: StandardVersionedIndexId) -> Option<T> {
        self.spec_get_at(id.spec_index())
    }

    /// The resource id this storage was built for.
    pub closed spec fn spec_resource_id(self) -> StandardVersionedIndexId {
        self.resource_id
    }

    /// Structural invariant tying the three arrays together: present reverse
    /// entries point at filled dense slots whose forward entry points back,
    /// filled dense slots are pointed at, and the free chain lists exactly
    /// the holes.
    pub closed spec fn wf(self) -> bool {
        let n = self.resources@.len() as int;
        let fl = self.free_list@;
        &&& self.forward@.len() == n
        &&& n <= MAX_INDEX as int
        &&& self.reverse@.len() <= MAX_INDEX as int + 1
        &&& fl.len() <= n
        &&& self.free_list_head as int == (if fl.len() == 0 {
            FREE_LIST_END as int
        } else {
            fl[0]
        })
        &&& (forall|k: int| 0 <= k < fl.len() ==> 0 <= #[trigger] fl[k] < n)
        &&& (forall|k: int|
            0 <= k < fl.len() ==> (#[trigger] self.forward@[fl[k]]).spec_index() == (if k + 1
                < fl.len() {
                fl[k + 1]
            } else {
                FREE_LIST_END as int
            }))
        &&& fl.no_duplicates()
        &&& (forall|k: int| 0 <= k < fl.len() ==> (#[trigger] self.resources@[fl[k]]) is None)
        &&& (forall|p: int|
            0 <= p < self.reverse@.len() ==> (#[trigger] self.reverse@[p]).spec_version() <= 1)
        &&& (forall|p: int|
            0 <= p < self.reverse@.len() && (#[trigger] self.reverse@[p]).spec_version() == 1
                ==> self.reverse@[p].spec_index() < n && self.forward@[self.reverse@[p].spec_index()].spec_index()
                == p && self.resources@[self.reverse@[p].spec_index()] is Some)
        &&& (forall|i: int|
            0 <= i < n && (#[trigger] self.resources@[i]) is Some ==> 0
                <= self.forward@[i].spec_index() < self.reverse@.len()
                && self.reverse@[self.forward@[i].spec_index()].spec_version() == 1
                && self.reverse@[self.forward@[i].spec_index()].spec_index() == i)
        &&& (forall|i: int|
            0 <= i < n && (#[trigger] self.resources@[i]) is None ==> fl.contains(i))
    }

    /// An empty storage for the given resource id.
    pub fn new(resource_id: StandardVersionedIndexId) -> (r: Self)
        ensures
            r.wf(),
            r.spec_dense_count() == 0,
            r.spec_free_count() == 0,
            forall|p: int| !r.spec_present(p),
            forall|p: int| r.spec_get_at(p) is None,
            r.spec_resource_id() == resource_id,
    {
        Self {
            resources: Vec::new(),
            forward: Vec::new(),
            reverse: Vec::new(),
            free_list_head: FREE_LIST_END,
            free_list: Ghost(Seq::empty()),
            resource_id,
        }
    }

    /// Length of the dense component array, holes included.
    pub fn dense_count(&self) -> (r: usize)
        ensures
            r == self.spec_dense_count(),
    {
        self.resources.len()
    }

    /// Stores `resource` for `id`'s index.  A fresh id fills a reclaimed
    /// hole or grows the dense array; a re-insert overwrites in place and
    /// returns the prior component.
    #[verifier::rlimit(60)]
    pub fn insert(&mut self, id: StandardVersionedIndexId, resource: T) -> (r: Option<T>)
        requires
            old(self).wf(),
            old(self).spec_get(id) is Some || old(self).spec_free_count() > 0 || old(
                self,
            ).spec_dense_count() < MAX_INDEX as int,
        ensures
            final(self).wf(),
            r == old(self).spec_get(id),
            final(self).spec_get_at(id.spec_index()) == Some(resource),
            final(self).spec_present(id.spec_index()),
            forall|p: int|
                p != id.spec_index() ==> final(self).spec_get_at(p) == old(self).spec_get_at(p),
            forall|p: int|
                p != id.spec_index() ==> final(self).spec_present(p) == old(self).spec_present(
                    p,
                ),
            forall|p: int|
                p != id.spec_index() && old(self).spec_present(p)
                    ==> final(self).spec_stored_id_at(p) == old(self).spec_stored_id_at(p),
            old(self).spec_get(id) is None ==> final(self).spec_stored_id_at(id.spec_index())
                == id,
            old(self).spec_get(id) is Some ==> final(self).spec_stored_id_at(id.spec_index())
                == old(self).spec_stored_id_at(id.spec_index()),
            final(self).spec_live_count() == old(self).spec_live_count() + (if old(
                self,
            ).spec_get(id) is Some {
                0int
            } else {
                1int
            }),
            old(self).spec_dense_count() <= final(self).spec_dense_count() <= old(
                self,
            ).spec_dense_count() + 1,
            old(self).spec_get(id) is Some ==> final(self).spec_dense_count() == old(
                self,
            ).spec_dense_count(),
            final(self).spec_resource_id() == old(self).spec_resource_id(),
    {
        proof {
            id.lemma_fields_in_range();
        }
        let index = id.index();
        if index >= self.reverse.len() {
            let absent = StandardVersionedIndexId::from_index_and_version(0, 0);
            while self.reverse.len() < index + 1
                invariant
                    self.resources@ == old(self).resources@,
                    self.forward@ == old(self).forward@,
                    self.free_list_head == old(self).free_list_head,
                    self.free_list@ == old(self).free_list@,
                    self.resource_id == old(self).resource_id,
                    index <= MAX_INDEX,
                    absent.spec_version() == 0,
                    old(self).reverse@.len() <= self.reverse@.len() <= index + 1,
                    old(self).reverse@ == self.reverse@.subrange(
                        0,
                        old(self).reverse@.len() as int,
                    ),
                    forall|p: int|
                        old(self).reverse@.len() <= p < self.reverse@.len() ==> (
                        #[trigger] self.reverse@[p]).spec_version() == 0,
                decreases index + 1 - self.reverse@.len(),
            {
                self.reverse.push(absent);
                proof {
                    assert(old(self).reverse@ =~= self.reverse@.subrange(
                        0,
                        old(self).reverse@.len() as int,
                    ));
                }
            }
        }
        let ghost mid = *self;
        proof {
            assert forall|p: int|
                0 <= p < old(self).reverse@.len() implies old(self).reverse@[p]
                == mid.reverse@[p] by {
                assert(mid.reverse@.subrange(0, old(self).reverse@.len() as int)[p]
                    == mid.reverse@[p]);
            }
            assert forall|p: int| mid.spec_present(p) == old(self).spec_present(p) by {}
            assert forall|p: int| #[trigger] mid.spec_get_at(p) == old(self).spec_get_at(p) by {}
            assert forall|p: int|
                old(self).spec_present(p) implies #[trigger] mid.spec_stored_id_at(p) == old(
                self,
            ).spec_stored_id_at(p) by {}
            assert(mid.wf());
        }
        let rev = self.reverse[index];
        proof {
            rev.lemma_fields_in_range();
        }
        if rev.version() == 0 {
            if self.free_list_head == FREE_LIST_END {
                let dense = self.resources.len();
                self.reverse[index] = StandardVersionedIndexId::from_index_and_version(
                    dense,
                    1,
                );
                self.forward.push(id);
                self.resources.push(Some(resource));
                proof {
                    let post = *self;
                    let n = mid.resources@.len() as int;
                    assert(post.resources@ =~= mid.resources@.push(Some(resource)));
                    assert(post.forward@ =~= mid.forward@.push(id));
                    assert(post.reverse@ =~= mid.reverse@.update(
                        index as int,
                        post.reverse@[index as int],
                    ));
                    assert(post.reverse@[index as int].spec_index() == n);
                    assert(post.reverse@[index as int].spec_version() == 1);
                    assert forall|i: int|
                        0 <= i < n + 1 && (#[trigger] post.resources@[i]) is Some implies 0
                        <= post.forward@[i].spec_index() < post.reverse@.len()
                        && post.reverse@[post.forward@[i].spec_index()].spec_version() == 1
                        && post.reverse@[post.forward@[i].spec_index()].spec_index() == i by {
                        if i < n {
                            assert(mid.resources@[i] is Some);
                            let p = mid.forward@[i].spec_index();
                            assert(mid.reverse@[p].spec_version() == 1);
                            assert(p != index as int);
                        }
                    }
                    assert forall|p: int|
                        0 <= p < post.reverse@.len() && (
                    #[trigger] post.reverse@[p]).spec_version() == 1 implies post.reverse@[p].spec_index()
                        < n + 1 && post.forward@[post.reverse@[p].spec_index()].spec_index() == p
                        && post.resources@[post.reverse@[p].spec_index()] is Some by {
                        if p != index as int {
                            assert(mid.reverse@[p].spec_version() == 1);
                            assert(mid.reverse@[p].spec_index() < n);
                        }
                    }
                    assert(post.wf());
                    assert forall|p: int|
                        p != id.spec_index() implies #[trigger] post.spec_get_at(p)
                        == mid.spec_get_at(p) by {
                        if mid.spec_present(p) {
                            assert(mid.spec_dense_at(p) < n);
                        }
                    }
                    assert forall|p: int|
                        p != id.spec_index() && mid.spec_present(p) implies
                    #[trigger] post.spec_stored_id_at(p) == mid.spec_stored_id_at(p) by {
                        assert(mid.spec_dense_at(p) < n);
                    }
                }
                None
            } else {
                let ghost fl = self.free_list@;
                let insert_index = self.free_list_head;
                let next = self.forward[insert_index];
                proof {
                    next.lemma_fields_in_range();
                }
                self.free_list_head = next.index();
                self.resources[insert_index] = Some(resource);
                self.forward[insert_index] = id;
                self.reverse[index] = StandardVersionedIndexId::from_index_and_version(
                    insert_index,
                    1,
                );
                self.free_list = Ghost(fl.drop_first());
                proof {
                    let post = *self;
                    let n = mid.resources@.len() as int;
                    let hole = fl[0];
                    assert(post.resources@ =~= mid.resources@.update(hole, Some(resource)));
                    assert(post.forward@ =~= mid.forward@.update(hole, id));
                    assert(post.reverse@ =~= mid.reverse@.update(
                        index as int,
                        post.reverse@[index as int],
                    ));
                    assert(post.reverse@[index as int].spec_index() == hole);
                    assert(post.reverse@[index as int].spec_version() == 1);
                    assert(mid.resources@[hole] is None);
                    assert forall|k: int|
                        0 <= k < post.free_list@.len() implies 0 <= (#[trigger] post.free_list@[k])
                        < n && post.forward@[post.free_list@[k]].spec_index() == (if k + 1
                        < post.free_list@.len() {
                        post.free_list@[k + 1]
                    } else {
                        FREE_LIST_END as int
                    }) && post.resources@[post.free_list@[k]] is None by {
                        assert(post.free_list@[k] == fl[k + 1]);
                        assert(fl[k + 1] != fl[0]);
                        if k + 1 < post.free_list@.len() {
                            assert(post.free_list@[k + 1] == fl[k + 2]);
                        }
                    }
                    assert forall|p: int|
                        0 <= p < post.reverse@.len() && (
                    #[trigger] post.reverse@[p]).spec_version() == 1 implies post.reverse@[p].spec_index()
                        < n && post.forward@[post.reverse@[p].spec_index()].spec_index() == p
                        && post.resources@[post.reverse@[p].spec_index()] is Some by {
                        if p != index as int {
                            assert(mid.reverse@[p].spec_version() == 1);
                            assert(mid.resources@[mid.reverse@[p].spec_index()] is Some);
                            assert(mid.reverse@[p].spec_index() != hole);
                        }
                    }
                    assert forall|i: int|
                        0 <= i < n && (#[trigger] post.resources@[i]) is Some implies 0
                        <= post.forward@[i].spec_index() < post.reverse@.len()
                        && post.reverse@[post.forward@[i].spec_index()].spec_version() == 1
                        && post.reverse@[post.forward@[i].spec_index()].spec_index() == i by {
                        if i != hole {
                            assert(mid.resources@[i] is Some);
                            let p = mid.forward@[i].spec_index();
                            assert(mid.reverse@[p].spec_version() == 1);
                            assert(p != index as int);
                        }
                    }
                    assert forall|i: int|
                        0 <= i < n && (#[trigger] post.resources@[i]) is None implies post.free_list@.contains(
                        i,
                    ) by {
                        assert(i != hole);
                        assert(mid.resources@[i] is None);
                        assert(fl.contains(i));
                        let k = choose|k: int| 0 <= k < fl.len() && fl[k] == i;
                        assert(k != 0);
                        assert(post.free_list@[k - 1] == i);
                    }
                    assert(post.wf());
                    assert forall|p: int|
                        p != id.spec_index() implies #[trigger] post.spec_get_at(p)
                        == mid.spec_get_at(p) by {
                        if mid.spec_present(p) {
                            assert(mid.spec_dense_at(p) != hole);
                        }
                    }
                    assert forall|p: int|
                        p != id.spec_index() && mid.spec_present(p) implies
                    #[trigger] post.spec_stored_id_at(p) == mid.spec_stored_id_at(p) by {
                        assert(mid.spec_dense_at(p) != hole);
                    }
                }
                None
            }
        } else {
            let dense = rev.index();
            let prev = self.resources[dense].take();
            self.resources[dense] = Some(resource);
            proof {
                let post = *self;
                let n = mid.resources@.len() as int;
                assert(mid.spec_present(index as int));
                assert(post.resources@ =~= mid.resources@.update(dense as int, Some(resource)));
                assert forall|k: int|
                    0 <= k < post.free_list@.len() implies (
                #[trigger] post.resources@[post.free_list@[k]]) is None by {
                    assert(mid.resources@[mid.free_list@[k]] is None);
                    assert(mid.free_list@[k] != dense as int);
                }
                assert forall|p: int|
                    0 <= p < post.reverse@.len() && (#[trigger] post.reverse@[p]).spec_version()
                    == 1 implies post.resources@[post.reverse@[p].spec_index()] is Some by {
                    if p != index as int {
                        assert(mid.resources@[mid.reverse@[p].spec_index()] is Some);
                    }
                }
                assert forall|i: int|
                    0 <= i < n && (#[trigger] post.resources@[i]) is Some implies 0
                    <= post.forward@[i].spec_index() < post.reverse@.len()
                    && post.reverse@[post.forward@[i].spec_index()].spec_version() == 1
                    && post.reverse@[post.forward@[i].spec_index()].spec_index() == i by {
                    if i != dense as int {
                        assert(mid.resources@[i] is Some);
                    }
                }
                assert(post.wf());
                assert forall|p: int|
                    p != id.spec_index() implies #[trigger] post.spec_get_at(p)
                    == mid.spec_get_at(p) by {
                    if mid.spec_present(p) {
                        assert(mid.forward@[mid.spec_dense_at(p)].spec_index() == p);
                        assert(mid.spec_dense_at(p) != dense as int);
                    }
                }
            }
            prev
        }
    }
    /// Removes the component for `id`'s index, if present, linking its dense
    /// slot onto the free chain.
    pub fn remove(&mut self, id: StandardVersionedIndexId) -> (r: Option<T>)
        requires
            old(self).wf(),
        ensures
            final(self).wf(),
            r == old(self).spec_get(id),
            final(self).spec_get_at(id.spec_index()) is None,
            !final(self).spec_present(id.spec_index()),
            forall|p: int|
                p != id.spec_index() ==> final(self).spec_get_at(p) == old(self).spec_get_at(p),
            forall|p: int|
                p != id.spec_index() ==> final(self).spec_present(p) == old(self).spec_present(
                    p,
                ),
            forall|p: int|
                p != id.spec_index() && old(self).spec_present(p)
                    ==> final(self).spec_stored_id_at(p) == old(self).spec_stored_id_at(p),
            final(self).spec_live_count() == old(self).spec_live_count() - (if old(
                self,
            ).spec_get(id) is Some {
                1int
            } else {
                0int
            }),
            final(self).spec_dense_count() == old(self).spec_dense_count(),
            final(self).spec_resource_id() == old(self).spec_resource_id(),
    {
        proof {
            id.lemma_fields_in_range();
        }
        let index = id.index();
        if index >= self.reverse.len() {
            return None;
        }
        let rev = self.reverse[index];
        if rev.version() == 0 {
            return None;
        }
        let ghost fl = self.free_list@;
        let ghost n = self.resources@.len() as int;
        let dense = rev.index();
        proof {
            assert(self.resources@[dense as int] is Some);
            assert forall|k: int| 0 <= k < fl.len() implies fl[k] != dense as int by {
                assert(self.resources@[fl[k]] is None);
            }
            lemma_distinct_in_range_bound(seq![dense as int] + fl, n);
            assert forall|k: int|
                0 <= k < (seq![dense as int] + fl).len() implies 0 <= (#[trigger] (seq![
                dense as int,
            ] + fl)[k]) < n by {
                if k > 0 {
                    assert((seq![dense as int] + fl)[k] == fl[k - 1]);
                }
            }
            assert((seq![dense as int] + fl).no_duplicates());
        }
        let new_forward = StandardVersionedIndexId::from_index_and_version(
            self.free_list_head,
            0,
        );
        self.forward[dense] = new_forward;
        self.free_list_head = dense;
        self.reverse[index] = StandardVersionedIndexId::from_index_and_version(dense, 0);
        let taken = self.resources[dense].take();
        self.free_list = Ghost(seq![dense as int] + fl);
        proof {
            let post = *self;
            let mid = *old(self);
            assert(post.resources@ =~= mid.resources@.update(dense as int, None));
            assert(post.forward@ =~= mid.forward@.update(dense as int, new_forward));
            assert(post.reverse@ =~= mid.reverse@.update(
                index as int,
                post.reverse@[index as int],
            ));
            assert forall|k: int|
                0 <= k < post.free_list@.len() implies 0 <= (#[trigger] post.free_list@[k]) < n
                && post.forward@[post.free_list@[k]].spec_index() == (if k + 1
                < post.free_list@.len() {
                post.free_list@[k + 1]
            } else {
                FREE_LIST_END as int
            }) && post.resources@[post.free_list@[k]] is None by {
                if k == 0 {
                    assert(post.free_list@[0] == dense as int);
                } else {
                    assert(post.free_list@[k] == fl[k - 1]);
                    assert(fl[k - 1] != dense as int);
                    if k + 1 < post.free_list@.len() {
                        assert(post.free_list@[k + 1] == fl[k]);
                    }
                }
            }
            assert forall|p: int|
                0 <= p < post.reverse@.len() && (#[trigger] post.reverse@[p]).spec_version()
                == 1 implies post.reverse@[p].spec_index() < n
                && post.forward@[post.reverse@[p].spec_index()].spec_index() == p
                && post.resources@[post.reverse@[p].spec_index()] is Some by {
                assert(p != index as int);
                assert(mid.reverse@[p].spec_version() == 1);
                assert(mid.forward@[mid.reverse@[p].spec_index()].spec_index() == p);
                assert(mid.reverse@[p].spec_index() != dense as int);
            }
            assert forall|i: int|
                0 <= i < n && (#[trigger] post.resources@[i]) is Some implies 0
                <= post.forward@[i].spec_index() < post.reverse@.len()
                && post.reverse@[post.forward@[i].spec_index()].spec_version() == 1
                && post.reverse@[post.forward@[i].spec_index()].spec_index() == i by {
                assert(i != dense as int);
                assert(mid.resources@[i] is Some);
                let p = mid.forward@[i].spec_index();
                assert(mid.reverse@[p].spec_index() == i);
                assert(p != index as int);
            }
            assert forall|i: int|
                0 <= i < n && (#[trigger] post.resources@[i]) is None implies post.free_list@.contains(
                i,
            ) by {
                if i == dense as int {
                    assert(post.free_list@[0] == i);
                } else {
                    assert(mid.resources@[i] is None);
                    assert(fl.contains(i));
                    let k = choose|k: int| 0 <= k < fl.len() && fl[k] == i;
                    assert(post.free_list@[k + 1] == i);
                }
            }
            assert(post.wf());
            assert forall|p: int|
                p != id.spec_index() implies #[trigger] post.spec_get_at(p) == mid.spec_get_at(
                p,
            ) by {
                if mid.spec_present(p) {
                    assert(mid.forward@[mid.spec_dense_at(p)].spec_index() == p);
                    assert(mid.spec_dense_at(p) != dense as int);
                }
            }
            assert forall|p: int|
                p != id.spec_index() && mid.spec_present(p) implies #[trigger] post.spec_stored_id_at(
                p,
            ) == mid.spec_stored_id_at(p) by {
                assert(mid.forward@[mid.spec_dense_at(p)].spec_index() == p);
                assert(mid.spec_dense_at(p) != dense as int);
            }
        }
        taken
    }

    /// The component stored for `id`'s index, if any.
    pub fn get(&self, id: StandardVersionedIndexId) -> (r: Option<&T>)
        requires
            self.wf(),
        ensures
            match r {
                Some(v) => self.spec_get(id) == Some(*v),
                None => self.spec_get(id) is None,
            },
    {
        proof {
            id.lemma_fields_in_range();
        }
        let index = id.index();
        if index < self.reverse.len() {
            let rev = self.reverse[index];
            if rev.version() == 1 {
                match &self.resources[rev.index()] {
                    Some(v) => Some(v),
                    None => vstd::pervasive::unreached(),
                }
            } else {
                None
            }
        } else {
            None
        }
    }

    /// The live `(stored id, component)` pairs among the first `n` dense
    /// positions, in dense order.
    pub closed spec fn pairs_prefix(self, n: int) -> Seq<(StandardVersionedIndexId, T)>
        decreases n,
    {
        if n <= 0 {
            Seq::empty()
        } else {
            self.pairs_prefix(n - 1) + (if self.resources@[n - 1] is Some {
                seq![(self.forward@[n - 1], self.resources@[n - 1].unwrap())]
            } else {
                Seq::empty()
            })
        }
    }

    /// The live `(stored id, component)` pairs in dense order.
    pub closed spec fn spec_pairs(self) -> Seq<(StandardVersionedIndexId, T)> {
        self.pairs_prefix(self.spec_dense_count())
    }

    /// Lists each live entry once, as `(stored id, component)`, in dense
    /// order.
    pub fn iter(&self) -> (r: Vec<(StandardVersionedIndexId, &T)>)
        requires
            self.wf(),
        ensures
            r@.len() == self.spec_pairs().len(),
            forall|k: int|
                0 <= k < r@.len() ==> (#[trigger] r@[k]).0 == self.spec_pairs()[k].0 && *r@[k].1
                    == self.spec_pairs()[k].1,
    {
        let mut result: Vec<(StandardVersionedIndexId, &T)> = Vec::new();
        let mut i: usize = 0;
        while i < self.resources.len()
            invariant
                self.wf(),
                i <= self.resources@.len(),
                result@.len() == self.pairs_prefix(i as int).len(),
                forall|k: int|
                    0 <= k < result@.len() ==> (#[trigger] result@[k]).0 == self.pairs_prefix(
                        i as int,
                    )[k].0 && *result@[k].1 == self.pairs_prefix(i as int)[k].1,
            decreases self.resources@.len() - i,
        {
            match &self.resources[i] {
                Some(v) => {
                    result.push((self.forward[i], v));
                },
                None => {},
            }
            i = i + 1;
        }
        result
    }

    /// Facts about the listing of the first `n` dense positions: every pair
    /// belongs to a present source index, every present source index with a
    /// dense position below `n` appears, and no source index repeats.
    proof fn lemma_pairs_prefix_props(self, n: int)
        requires
            self.wf(),
            0 <= n <= self.spec_dense_count(),
        ensures
            forall|k: int|
                0 <= k < self.pairs_prefix(n).len() ==> {
                    let p = (#[trigger] self.pairs_prefix(n)[k]).0.spec_index();
                    &&& self.spec_present(p)
                    &&& self.spec_dense_at(p) < n
                    &&& self.pairs_prefix(n)[k].0 == self.spec_stored_id_at(p)
                    &&& Some(self.pairs_prefix(n)[k].1) == self.spec_get_at(p)
                },
            forall|p: int|
                self.spec_present(p) && self.spec_dense_at(p) < n ==> exists|k: int|
                    0 <= k < self.pairs_prefix(n).len() && (#[trigger] self.pairs_prefix(
                        n,
                    )[k]).0.spec_index() == p,
            forall|k1: int, k2: int|
                0 <= k1 < k2 < self.pairs_prefix(n).len() ==> self.pairs_prefix(
                    n,
                )[k1].0.spec_index() != self.pairs_prefix(n)[k2].0.spec_index(),
            forall|k1: int, k2: int|
                0 <= k1 < k2 < self.pairs_prefix(n).len() ==> self.spec_dense_at(
                    self.pairs_prefix(n)[k1].0.spec_index(),
                ) < self.spec_dense_at(self.pairs_prefix(n)[k2].0.spec_index()),
        decreases n,
    {
        if n > 0 {
            self.lemma_pairs_prefix_props(n - 1);
            let prev = self.pairs_prefix(n - 1);
            let cur = self.pairs_prefix(n);
            if self.resources@[n - 1] is Some {
                let id = self.forward@[n - 1];
                let p = id.spec_index();
                assert(self.spec_present(p) && self.spec_dense_at(p) == n - 1);
                assert(cur == prev.push((id, self.resources@[n - 1].unwrap())));
                assert(cur[prev.len() as int].0.spec_index() == p);
                assert forall|q: int|
                    self.spec_present(q) && self.spec_dense_at(q) < n implies exists|k: int|
                    0 <= k < cur.len() && (#[trigger] cur[k]).0.spec_index() == q by {
                    if self.spec_dense_at(q) < n - 1 {
                        let k = choose|k: int|
                            0 <= k < prev.len() && (#[trigger] prev[k]).0.spec_index() == q;
                        assert(cur[k].0.spec_index() == q);
                    } else {
                        assert(self.forward@[self.spec_dense_at(q)].spec_index() == q);
                        assert(cur[prev.len() as int].0.spec_index() == q);
                    }
                }
                assert forall|k1: int, k2: int|
                    0 <= k1 < k2 < cur.len() implies cur[k1].0.spec_index()
                    != cur[k2].0.spec_index() && self.spec_dense_at(cur[k1].0.spec_index())
                    < self.spec_dense_at(cur[k2].0.spec_index()) by {
                    if k2 == cur.len() - 1 {
                        let q1 = cur[k1].0.spec_index();
                        assert(cur[k1] == prev[k1]);
                        assert(self.spec_dense_at(q1) < n - 1);
                        assert(self.spec_dense_at(cur[k2].0.spec_index()) == n - 1);
                    } else {
                        assert(cur[k1] == prev[k1] && cur[k2] == prev[k2]);
                    }
                }
            } else {
                assert(cur == prev);
                assert forall|q: int|
                    self.spec_present(q) && self.spec_dense_at(q) < n implies exists|k: int|
                    0 <= k < cur.len() && (#[trigger] cur[k]).0.spec_index() == q by {
                    assert(self.resources@[self.spec_dense_at(q)] is Some);
                    assert(self.spec_dense_at(q) != n - 1);
                }
            }
        }
    }

    /// Whether dense position `i` holds a component.
    pub closed spec fn spec_dense_filled(self, i: int) -> bool {
        self.resources@[i] is Some
    }

    /// The id recorded at dense position `i`.
    pub closed spec fn spec_forward_id_at(self, i: int) -> StandardVersionedIndexId {
        self.forward@[i]
    }

    /// Dense invariant: a present source index points at a filled dense
    /// slot whose forward entry records that index, an absent one stores no
    /// component, and every filled dense slot is pointed back at through
    /// the index its forward entry records.
    pub proof fn lemma_dense_invariant(self, p: int)
        requires
            self.wf(),
        ensures
            self.spec_present(p) ==> 0 <= self.spec_dense_at(p) < self.spec_dense_count()
                && self.spec_stored_id_at(p).spec_index() == p && self.spec_get_at(p) is Some,
            !self.spec_present(p) ==> self.spec_get_at(p) is None,
            forall|i: int|
                0 <= i < self.spec_dense_count() && #[trigger] self.spec_dense_filled(i)
                    ==> self.spec_present(self.spec_forward_id_at(i).spec_index())
                    && self.spec_dense_at(self.spec_forward_id_at(i).spec_index()) == i,
    {
    }

    /// Storage round trip: in the state an insert of `v` under `id` leaves
    /// behind, `id` maps to `v`; in the state a removal of `id` leaves
    /// behind, `id` maps to nothing.  The hypotheses are exactly what
    /// [`Self::insert`] and [`Self::remove`] ensure.
    pub proof fn lemma_round_trip(after_insert: Self, after_remove: Self, id: StandardVersionedIndexId, v: T)
        requires
            after_insert.spec_get_at(id.spec_index()) == Some(v),
            after_remove.spec_get_at(id.spec_index()) is None,
        ensures
            after_insert.spec_get(id) == Some(v),
            after_remove.spec_get(id) is None,
    {
    }

    /// Re-insert: inserting `v2` under an id that already maps to `v1`
    /// hands `v1` back and leaves the id mapping to `v2`.  The hypotheses
    /// are exactly what two runs of [`Self::insert`] ensure.
    pub proof fn lemma_reinsert(
        first: Self,
        second: Self,
        id: StandardVersionedIndexId,
        v1: T,
        v2: T,
        prev: Option<T>,
    )
        requires
            first.spec_get_at(id.spec_index()) == Some(v1),
            prev == first.spec_get(id),
            second.spec_get_at(id.spec_index()) == Some(v2),
        ensures
            prev == Some(v1),
            second.spec_get(id) == Some(v2),
    {
    }

    /// Iteration completeness: the pairs listed by [`Self::iter`] cover each
    /// present source index exactly once and carry its stored id and
    /// component; no other pair appears.
    pub proof fn lemma_iteration_complete(self)
        requires
            self.wf(),
        ensures
            forall|k: int|
                0 <= k < self.spec_pairs().len() ==> {
                    let p = (#[trigger] self.spec_pairs()[k]).0.spec_index();
                    &&& self.spec_present(p)
                    &&& self.spec_pairs()[k].0 == self.spec_stored_id_at(p)
                    &&& Some(self.spec_pairs()[k].1) == self.spec_get_at(p)
                },
            forall|p: int|
                self.spec_present(p) ==> exists|k: int|
                    0 <= k < self.spec_pairs().len() && (
                    #[trigger] self.spec_pairs()[k]).0.spec_index() == p,
            forall|k1: int, k2: int|
                0 <= k1 < k2 < self.spec_pairs().len() ==> self.spec_pairs()[k1].0.spec_index()
                    != self.spec_pairs()[k2].0.spec_index(),
            forall|k1: int, k2: int|
                0 <= k1 < k2 < self.spec_pairs().len() ==> self.spec_dense_at(
                    self.spec_pairs()[k1].0.spec_index(),
                ) < self.spec_dense_at(self.spec_pairs()[k2].0.spec_index()),
            self.spec_pairs().len() == self.spec_live_count(),
    {
        self.lemma_pairs_prefix_props(self.spec_dense_count());
        self.lemma_pairs_count();
    }

    /// The listing is as long as there are live entries: filled and free
    /// dense positions split the buffer, and the free chain lists each free
    /// position once.
    proof fn lemma_pairs_count(self)
        requires
            self.wf(),
        ensures
            self.spec_pairs().len() == self.spec_live_count(),
    {
        broadcast use vstd::set::group_set_axioms;

        let n = self.spec_dense_count();
        self.lemma_pairs_prefix_len(n);
        self.lemma_unfilled_set(n);
        let uf = Set::new(|i: int| 0 <= i < n && !((#[trigger] self.resources@[i]) is Some));
        let fl = self.free_list@;
        assert(uf =~= fl.to_set()) by {
            assert forall|i: int| #[trigger] uf.contains(i) implies fl.to_set().contains(
                i,
            ) by {
                assert(fl.contains(i));
            }
            assert forall|i: int| #[trigger] fl.to_set().contains(i) implies uf.contains(
                i,
            ) by {
                assert(fl.contains(i));
                let k = choose|k: int| 0 <= k < fl.len() && fl[k] == i;
            }
        }
        fl.unique_seq_to_set();
    }

    /// The listing of the first `n` dense positions, plus the unfilled ones
    /// among them, account for all `n`.
    proof fn lemma_pairs_prefix_len(self, n: int)
        requires
            0 <= n,
        ensures
            self.pairs_prefix(n).len() + Set::new(
                |i: int| 0 <= i < n && !((#[trigger] self.resources@[i]) is Some),
            ).len() == n,
    {
        self.lemma_unfilled_split(n);
        self.lemma_unfilled_set(n);
    }

    /// Number of unfilled dense positions among the first `n`.
    spec fn unfilled_below(self, n: int) -> int
        decreases n,
    {
        if n <= 0 {
            0
        } else {
            self.unfilled_below(n - 1) + (if self.resources@[n - 1] is Some {
                0int
            } else {
                1int
            })
        }
    }

    /// Filled and unfilled positions split the range.
    proof fn lemma_unfilled_split(self, n: int)
        requires
            0 <= n,
        ensures
            self.pairs_prefix(n).len() + self.unfilled_below(n) == n,
        decreases n,
    {
        if n > 0 {
            self.lemma_unfilled_split(n - 1);
        }
    }

    /// The unfilled count is the cardinality of the unfilled position set.
    proof fn lemma_unfilled_set(self, n: int)
        requires
            0 <= n,
        ensures
            ({
                let uf = Set::new(
                    |i: int| 0 <= i < n && !((#[trigger] self.resources@[i]) is Some),
                );
                uf.finite() && uf.len() == self.unfilled_below(n)
            }),
        decreases n,
    {
        broadcast use vstd::set::group_set_axioms;

        let uf = Set::new(|i: int| 0 <= i < n && !((#[trigger] self.resources@[i]) is Some));
        if n == 0 {
            assert(uf =~= Set::empty());
        } else {
            self.lemma_unfilled_set(n - 1);
            let prev = Set::new(
                |i: int| 0 <= i < n - 1 && !((#[trigger] self.resources@[i]) is Some),
            );
            if self.resources@[n - 1] is Some {
                assert(uf =~= prev);
            } else {
                assert(uf =~= prev.insert(n - 1));
                assert(!prev.contains(n - 1));
            }
        }
    }
}

} // verus!
