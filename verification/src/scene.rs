//! The scene's live world: entities, viewports and per-resource storages.
//!
//! [`SceneState`] is what job functions receive.  Its well-formedness is a
//! type invariant, so it survives calls into code this crate has not
//! verified; all mutation goes through methods that keep it.
use vstd::prelude::*;

verus! {

use vstd::string::StringExecFns;
use crate::id_storage::{IdMap, IdStorage};
use crate::job::{JobKind, JobRegistry};
use crate::json::{elements_of, entries_of, field_of, value_elements, value_entries, value_field};
use crate::result::{Error, SourceLocation};
use crate::scheduler::{Scheduler, SystemResources};
use crate::id_mapped_storage::IdMappedResourceStorage;
use crate::resource::{make_resource_storages, ResourceRegistry, ResourceStorage, StorageFamily};
use crate::versioned_index_id::{StandardVersionedIndexId, MAX_INDEX};

broadcast use StandardVersionedIndexId::lemma_index_bounds;

/// Handles naming entities.
pub type EntityId = StandardVersionedIndexId;

/// Handles naming viewports.
pub type ViewportId = StandardVersionedIndexId;

/// A request to spawn one entity, submitted by a job during a frame.
pub struct EntityDescriptor {}

impl EntityDescriptor {
    /// A descriptor for one plain entity.
    pub fn new() -> Self {
        EntityDescriptor {  }
    }
}

/// A presentation target, modelled by plain values: which GPU drives it and
/// the extent of its surface.  The GPU objects themselves live with the
/// host.
pub struct Viewport {
    gpu_index: usize,
    width: u32,
    height: u32,
}

impl Viewport {
    /// Index of the GPU this viewport is driven by.
    pub closed spec fn spec_gpu_index(self) -> int {
        self.gpu_index as int
    }

    /// Surface width in pixels.
    pub closed spec fn spec_width(self) -> u32 {
        self.width
    }

    /// Surface height in pixels.
    pub closed spec fn spec_height(self) -> u32 {
        self.height
    }

    /// A viewport on the given GPU with the given extent.
    pub fn new(gpu_index: usize, width: u32, height: u32) -> (r: Self)
        ensures
            r.spec_gpu_index() == gpu_index,
            r.spec_width() == width,
            r.spec_height() == height,
    {
        Self { gpu_index, width, height }
    }

    /// Index of the GPU this viewport is driven by.
    pub fn gpu(&self) -> (r: usize)
        ensures
            r == self.spec_gpu_index(),
    {
        self.gpu_index
    }

    /// Surface width in pixels.
    pub fn width(&self) -> (r: u32)
        ensures
            r == self.spec_width(),
    {
        self.width
    }

    /// Surface height in pixels.
    pub fn height(&self) -> (r: u32)
        ensures
            r == self.spec_height(),
    {
        self.height
    }
}

/// Membership in a pushed id list: the old members and the new id.
proof fn lemma_id_contains_after_push(
    s: Seq<StandardVersionedIndexId>,
    x: StandardVersionedIndexId,
    y: StandardVersionedIndexId,
)
    ensures
        s.push(x).contains(y) <==> (s.contains(y) || y == x),
{
    if s.contains(y) {
        let k = choose|k: int| 0 <= k < s.len() && s[k] == y;
        assert(s.push(x)[k] == y);
    }
    if s.push(x).contains(y) && y != x {
        let k = choose|k: int| 0 <= k < s.push(x).len() && s.push(x)[k] == y;
        assert(s[k] == y);
    }
    assert(s.push(x)[s.len() as int] == x);
}

/// How many of the first `upto` despawn requests name a distinct live
/// entity of `entities`: the number of ids those requests free.
pub open spec fn count_freed(
    despawns: Seq<StandardVersionedIndexId>,
    entities: IdStorage,
    upto: int,
) -> int
    decreases upto,
{
    if upto <= 0 {
        0
    } else {
        count_freed(despawns, entities, upto - 1) + (if entities.spec_contains(despawns[upto - 1])
            && !despawns.take(upto - 1).contains(despawns[upto - 1]) {
            1int
        } else {
            0int
        })
    }
}

/// Every registered resource id addresses a present storage in
/// `storages`.
pub open spec fn storages_cover<C>(
    storages: Seq<Option<ResourceStorage<C>>>,
    registry: ResourceRegistry,
) -> bool {
    forall|rid: StandardVersionedIndexId|
        (#[trigger] registry.spec_resource(rid)) is Some ==> 0 <= rid.spec_index()
            < storages.len() && storages[rid.spec_index()] is Some
}

/// Dense entry count of the storage addressed by `rid`.
pub open spec fn storage_dense<C>(
    storages: Seq<Option<ResourceStorage<C>>>,
    rid: StandardVersionedIndexId,
) -> int {
    match storages[rid.spec_index()].unwrap() {
        ResourceStorage::EntityComponent(s) => s.spec_dense_count(),
        ResourceStorage::EntityComponentSlice(_) => 0,
    }
}

/// The storage addressed by `rid` holds one value per entity (rather than
/// a slice per entity).
pub open spec fn storage_single_value<C>(
    storages: Seq<Option<ResourceStorage<C>>>,
    rid: StandardVersionedIndexId,
) -> bool {
    storages[rid.spec_index()].unwrap() is EntityComponent
}

/// The storage addressed by `rid` holds an entry for `eid`.
pub open spec fn storage_has_entry<C>(
    storages: Seq<Option<ResourceStorage<C>>>,
    rid: StandardVersionedIndexId,
    eid: StandardVersionedIndexId,
) -> bool {
    match storages[rid.spec_index()].unwrap() {
        ResourceStorage::EntityComponent(s) => s.spec_get(eid) is Some,
        ResourceStorage::EntityComponentSlice(_) => false,
    }
}

/// Everything a frame works on: the live entity ids, the viewport map, and
/// one optional storage per registered resource id index, over erased
/// component payloads `C`.
pub struct SceneState<C> {
    entities: IdStorage,
    viewports: IdMap<Viewport>,
    resources: Vec<Option<ResourceStorage<C>>>,
}

impl<C> SceneState<C> {
    /// The entity id storage.
    pub closed spec fn spec_entities(self) -> IdStorage {
        self.entities
    }

    /// The viewport map.
    pub closed spec fn spec_viewports(self) -> IdMap<Viewport> {
        self.viewports
    }

    /// The storages, by resource id index.
    pub closed spec fn spec_storages(self) -> Seq<Option<ResourceStorage<C>>> {
        self.resources@
    }

    /// The component stored for `(resource, entity)`, if the resource is
    /// registered and the entity has one.
    pub open spec fn spec_component(
        self,
        resource_id: StandardVersionedIndexId,
        entity_id: StandardVersionedIndexId,
    ) -> Option<C> {
        if 0 <= resource_id.spec_index() < self.spec_storages().len() && self.spec_storages()[resource_id.spec_index()] is Some {
            match self.spec_storages()[resource_id.spec_index()].unwrap() {
                ResourceStorage::EntityComponent(s) => s.spec_get(entity_id),
                ResourceStorage::EntityComponentSlice(_) => None,
            }
        } else {
            None
        }
    }

    /// The component slice stored for `(resource, entity)`, if the
    /// resource is slice-backed and the entity has one.
    pub open spec fn spec_component_slice(
        self,
        resource_id: StandardVersionedIndexId,
        entity_id: StandardVersionedIndexId,
    ) -> Option<Seq<C>> {
        if 0 <= resource_id.spec_index() < self.spec_storages().len() && self.spec_storages()[resource_id.spec_index()] is Some {
            match self.spec_storages()[resource_id.spec_index()].unwrap() {
                ResourceStorage::EntityComponent(_) => None,
                ResourceStorage::EntityComponentSlice(s) => s.spec_get(entity_id),
            }
        } else {
            None
        }
    }

    /// Well-formedness of every part; holds of every value of this type.
    #[verifier::type_invariant]
    closed spec fn wf(self) -> bool {
        &&& self.entities.wf()
        &&& self.viewports.wf()
        &&& (forall|k: int|
            0 <= k < self.resources@.len() && (#[trigger] self.resources@[k]) is Some
                ==> self.resources@[k].unwrap().wf())
    }

    /// A scene state with no entities, no viewports, and one empty storage
    /// per registered resource.
    pub fn new(registry: &ResourceRegistry) -> (r: Self)
        requires
            registry.wf(),
        ensures
            r.spec_entities().spec_len() == 0,
            r.spec_entities().spec_slot_count() == 0,
            r.spec_viewports().spec_len() == 0,
            r.spec_viewports().spec_slot_count() == 0,
            forall|id: StandardVersionedIndexId|
                registry.spec_resource(id) is Some ==> 0 <= id.spec_index()
                    < r.spec_storages().len() && (#[trigger] r.spec_storages()[id.spec_index()])
                    is Some,
            forall|k: int|
                0 <= k < r.spec_storages().len() && (#[trigger] r.spec_storages()[k]) is Some
                    ==> exists|id: StandardVersionedIndexId|
                    registry.spec_resource(id) is Some && id.spec_index() == k,
            forall|k: int|
                0 <= k < r.spec_storages().len() && (#[trigger] r.spec_storages()[k]) is Some
                    ==> (match r.spec_storages()[k].unwrap() {
                    ResourceStorage::EntityComponent(s) => s.spec_dense_count() == 0,
                    ResourceStorage::EntityComponentSlice(_) => true,
                }),
            forall|id: StandardVersionedIndexId|
                registry.spec_resource(id) is Some ==> ((#[trigger] storage_single_value(
                    r.spec_storages(),
                    id,
                )) <==> registry.spec_resource(id).unwrap().spec_family()
                    == StorageFamily::SingleValue),
            forall|rid: StandardVersionedIndexId, eid: StandardVersionedIndexId|
                r.spec_component(rid, eid) is None,
    {
        let r = Self {
            entities: IdStorage::new(),
            viewports: IdMap::new(),
            resources: make_resource_storages(registry),
        };
        r
    }

    /// The entity id storage.
    pub fn entities(&self) -> (r: &IdStorage)
        ensures
            *r == self.spec_entities(),
            r.wf(),
    {
        proof {
            use_type_invariant(self);
        }
        &self.entities
    }

    /// Number of slots the entity storage has ever issued.
    pub fn entity_slot_count(&self) -> (r: usize)
        ensures
            r == self.spec_entities().spec_slot_count(),
    {
        self.entities.slot_count()
    }

    /// Reserves a fresh entity id, or `None` when the id space is full.
    pub fn reserve_entity(&mut self) -> (r: Option<StandardVersionedIndexId>)
        ensures
            match r {
                Some(id) => {
                    &&& (old(self).spec_entities().spec_len() < old(
                        self,
                    ).spec_entities().spec_slot_count() || old(self).spec_entities().spec_slot_count()
                        < MAX_INDEX as int)
                    &&& !old(self).spec_entities().spec_contains(id)
                    &&& final(self).spec_entities().spec_contains(id)
                    &&& forall|id2: StandardVersionedIndexId|
                        id2 != id ==> final(self).spec_entities().spec_contains(id2) == old(
                            self,
                        ).spec_entities().spec_contains(id2)
                    &&& final(self).spec_entities().spec_len() == old(
                        self,
                    ).spec_entities().spec_len() + 1
                },
                None => {
                    &&& old(self).spec_entities().spec_slot_count() >= MAX_INDEX as int
                    &&& old(self).spec_entities().spec_len() == old(
                        self,
                    ).spec_entities().spec_slot_count()
                    &&& *final(self) == *old(self)
                },
            },
            final(self).spec_viewports() == old(self).spec_viewports(),
            final(self).spec_storages() == old(self).spec_storages(),
    {
        proof {
            use_type_invariant(&*self);
        }
        let mut entities = IdStorage::new();
        core::mem::swap(&mut entities, &mut self.entities);
        proof {
            entities.lemma_bounds();
        }
        let r = if entities.len() < entities.slot_count() || entities.slot_count() < MAX_INDEX
            as usize {
            Some(entities.reserve())
        } else {
            None
        };
        self.entities = entities;
        r
    }

    /// Frees an entity id; reports whether it was live.
    pub fn free_entity(&mut self, id: StandardVersionedIndexId) -> (r: bool)
        ensures
            r == old(self).spec_entities().spec_contains(id),
            r ==> {
                &&& !final(self).spec_entities().spec_contains(id)
                &&& forall|id2: StandardVersionedIndexId|
                    id2 != id ==> final(self).spec_entities().spec_contains(id2) == old(
                        self,
                    ).spec_entities().spec_contains(id2)
                &&& final(self).spec_entities().spec_len() == old(
                    self,
                ).spec_entities().spec_len() - 1
            },
            !r ==> *final(self) == *old(self),
            final(self).spec_viewports() == old(self).spec_viewports(),
            final(self).spec_storages() == old(self).spec_storages(),
    {
        proof {
            use_type_invariant(&*self);
        }
        let mut entities = IdStorage::new();
        core::mem::swap(&mut entities, &mut self.entities);
        let r = if entities.contains(id) {
            entities.free(id);
            true
        } else {
            false
        };
        self.entities = entities;
        r
    }

    /// Applies one frame's entity requests: frees each despawned id that is
    /// live, then reserves one fresh id per spawn request.  Returns `false`
    /// when the id space fills before every spawn is served; the requests
    /// already applied stay applied.
    pub fn apply_entity_requests(
        &mut self,
        despawns: &Vec<StandardVersionedIndexId>,
        spawn_count: usize,
    ) -> (r: bool)
        ensures
            final(self).spec_viewports() == old(self).spec_viewports(),
            final(self).spec_storages() == old(self).spec_storages(),
            ({
                let post = old(self).spec_entities();
                let fin = final(self).spec_entities();
                &&& (forall|id: StandardVersionedIndexId|
                    despawns@.contains(id) && post.spec_contains(id) ==> !fin.spec_contains(id))
                &&& (forall|id: StandardVersionedIndexId|
                    !despawns@.contains(id) && post.spec_contains(id) ==> fin.spec_contains(id))
                &&& (r ==> fin.spec_len() == post.spec_len() - count_freed(
                    despawns@,
                    post,
                    despawns@.len() as int,
                ) + spawn_count)
                &&& (!r ==> fin.spec_len() == MAX_INDEX as int && fin.spec_slot_count()
                    >= MAX_INDEX as int)
                &&& (spawn_count == 0 ==> r)
            }),
    {
        proof {
            use_type_invariant(&*self);
        }
        let mut ent = IdStorage::new();
        core::mem::swap(&mut ent, &mut self.entities);
        let ghost post = ent;
        proof {
            ent.lemma_bounds();
        }
        let mut di: usize = 0;
        let despawn_count = despawns.len();
        while di < despawn_count
            invariant
                ent.wf(),
                despawn_count == despawns@.len(),
                di <= despawn_count,
                post.wf(),
                ent.spec_slot_count() == post.spec_slot_count(),
                forall|id: StandardVersionedIndexId|
                    ent.spec_contains(id) <==> (post.spec_contains(id) && !despawns@.take(
                        di as int,
                    ).contains(id)),
                ent.spec_len() == post.spec_len() - count_freed(despawns@, post, di as int),
                forall|id: StandardVersionedIndexId|
                    post.spec_contains(id) && despawns@.take(di as int).contains(id)
                        ==> !ent.spec_slot_live(id.spec_index()) && ent.spec_slot_version(
                        id.spec_index(),
                    ) == id.spec_version() && 0 <= id.spec_index() < ent.spec_slot_count(),
            decreases despawn_count - di,
        {
            let id = despawns[di];
            let ghost pre_ent = ent;
            proof {
                assert(despawns@.take(di as int + 1) =~= despawns@.take(di as int).push(id));
            }
            if ent.contains(id) {
                ent.free(id);
                proof {
                    post.lemma_contains_bounds(id);
                }
            }
            proof {
                assert forall|id2: StandardVersionedIndexId|
                    ent.spec_contains(id2) <==> (post.spec_contains(id2) && !despawns@.take(
                        di as int + 1,
                    ).contains(id2)) by {
                    lemma_id_contains_after_push(despawns@.take(di as int), id, id2);
                }
                assert forall|id2: StandardVersionedIndexId|
                    post.spec_contains(id2) && despawns@.take(di as int + 1).contains(
                        id2,
                    ) implies !ent.spec_slot_live(id2.spec_index()) && ent.spec_slot_version(
                    id2.spec_index(),
                ) == id2.spec_version() && 0 <= id2.spec_index() < ent.spec_slot_count() by {
                    lemma_id_contains_after_push(despawns@.take(di as int), id, id2);
                    if despawns@.take(di as int).contains(id2) {
                        if pre_ent.spec_contains(id) {
                            pre_ent.lemma_contains_bounds(id);
                            assert(!pre_ent.spec_slot_live(id2.spec_index()));
                            assert(id2.spec_index() != id.spec_index());
                        }
                    } else {
                        assert(id2 == id);
                        assert(pre_ent.spec_contains(id2));
                        pre_ent.lemma_contains_bounds(id2);
                    }
                }
            }
            di = di + 1;
        }
        let ghost mid = ent;
        proof {
            assert(despawns@.take(despawn_count as int) =~= despawns@);
        }
        let mut si: usize = 0;
        let mut complete = true;
        while si < spawn_count && complete
            invariant
                ent.wf(),
                post.wf(),
                si <= spawn_count,
                spawn_count == 0 ==> complete,
                ent.spec_slot_count() >= post.spec_slot_count(),
                complete ==> ent.spec_len() == mid.spec_len() + si,
                !complete ==> ent.spec_len() == MAX_INDEX as int && ent.spec_slot_count()
                    >= MAX_INDEX as int,
                forall|id: StandardVersionedIndexId|
                    mid.spec_contains(id) ==> ent.spec_contains(id),
                forall|id: StandardVersionedIndexId|
                    #![trigger post.spec_contains(id)]
                    post.spec_contains(id) && despawns@.contains(id) ==> !ent.spec_contains(id)
                        && 0 <= id.spec_index() < ent.spec_slot_count() && (ent.spec_slot_live(
                        id.spec_index(),
                    ) || ent.spec_slot_version(id.spec_index()) == id.spec_version()),
            decreases spawn_count - si + (if complete {
                1int
            } else {
                0int
            }),
        {
            proof {
                ent.lemma_bounds();
            }
            if ent.len() < ent.slot_count() || ent.slot_count() < MAX_INDEX as usize {
                let ghost pre_ent = ent;
                let rid = ent.reserve();
                proof {
                    assert forall|id: StandardVersionedIndexId|
                        #![trigger post.spec_contains(id)]
                        post.spec_contains(id) && despawns@.contains(id) implies !ent.spec_contains(
                        id,
                    ) && 0 <= id.spec_index() < ent.spec_slot_count() && (ent.spec_slot_live(
                        id.spec_index(),
                    ) || ent.spec_slot_version(id.spec_index()) == id.spec_version()) by {
                        if rid.spec_index() == id.spec_index() {
                            assert(rid != id) by {
                                if pre_ent.spec_free_count() > 0 {
                                    assert(!pre_ent.spec_slot_live(pre_ent.spec_free_head()));
                                    assert(!pre_ent.spec_slot_live(id.spec_index()));
                                    assert(pre_ent.spec_slot_version(id.spec_index())
                                        == id.spec_version());
                                    assert(rid.spec_version() == (id.spec_version() + 1) % 256);
                                    id.lemma_fields_in_range();
                                } else {
                                    assert(rid.spec_index() == pre_ent.spec_slot_count());
                                    assert(id.spec_index() < pre_ent.spec_slot_count());
                                    assert(false);
                                }
                            }
                        }
                    }
                }
                si = si + 1;
            } else {
                proof {
                    ent.lemma_bounds();
                }
                complete = false;
            }
        }
        proof {
            assert(post == old(self).spec_entities());
            assert forall|id: StandardVersionedIndexId|
                despawns@.contains(id) && post.spec_contains(id) implies !ent.spec_contains(
                id,
            ) by {
                assert(post.spec_contains(id) && despawns@.contains(id));
            }
        }
        self.entities = ent;
        complete
    }

    /// Adds a viewport, or `None` when the id space is full.
    pub fn add_viewport(&mut self, viewport: Viewport) -> (r: Option<StandardVersionedIndexId>)
        ensures
            match r {
                Some(id) => {
                    &&& final(self).spec_viewports().spec_contains(id)
                    &&& final(self).spec_viewports().spec_get(id) == Some(viewport)
                    &&& forall|id2: StandardVersionedIndexId|
                        id2 != id ==> final(self).spec_viewports().spec_get(id2) == old(
                            self,
                        ).spec_viewports().spec_get(id2)
                    &&& final(self).spec_viewports().spec_len() == old(
                        self,
                    ).spec_viewports().spec_len() + 1
                },
                None => {
                    &&& old(self).spec_viewports().spec_slot_count() >= MAX_INDEX as int
                    &&& old(self).spec_viewports().spec_len() == old(
                        self,
                    ).spec_viewports().spec_slot_count()
                    &&& *final(self) == *old(self)
                },
            },
            final(self).spec_entities() == old(self).spec_entities(),
            final(self).spec_storages() == old(self).spec_storages(),
    {
        proof {
            use_type_invariant(&*self);
        }
        let mut viewports: IdMap<Viewport> = IdMap::new();
        core::mem::swap(&mut viewports, &mut self.viewports);
        proof {
            viewports.lemma_bounds();
        }
        let r = if viewports.len() < viewports.slot_count() || viewports.slot_count()
            < MAX_INDEX as usize {
            let id = viewports.insert(viewport).0;
            Some(id)
        } else {
            None
        };
        self.viewports = viewports;
        r
    }

    /// The viewport stored under `id`, if live.
    pub fn viewport(&self, id: StandardVersionedIndexId) -> (r: Option<&Viewport>)
        ensures
            match r {
                Some(v) => self.spec_viewports().spec_get(id) == Some(*v),
                None => self.spec_viewports().spec_get(id) is None,
            },
    {
        proof {
            use_type_invariant(self);
        }
        self.viewports.get(id)
    }

    /// The live viewport ids in slot order, each exactly once.
    pub fn viewport_ids(&self) -> (r: Vec<StandardVersionedIndexId>)
        ensures
            r@ == self.spec_viewports().spec_live_ids(),
            r@.no_duplicates(),
            r@.len() <= MAX_INDEX as int,
            r@.len() == self.spec_viewports().spec_len(),
            forall|id: StandardVersionedIndexId|
                r@.contains(id) <==> self.spec_viewports().spec_contains(id),
    {
        proof {
            use_type_invariant(self);
            self.viewports.lemma_iteration_complete();
            self.viewports.lemma_bounds();
        }
        let mut out: Vec<StandardVersionedIndexId> = Vec::new();
        let pairs = self.viewports.iter();
        let mut k: usize = 0;
        while k < pairs.len()
            invariant
                k <= pairs@.len(),
                out@.len() == k,
                forall|j: int| 0 <= j < k ==> out@[j] == pairs@[j].0,
            decreases pairs@.len() - k,
        {
            out.push(pairs[k].0);
            k = k + 1;
        }
        proof {
            assert(out@ =~= self.spec_viewports().spec_live_ids());
        }
        out
    }

    /// Number of live viewports.
    pub fn viewport_count(&self) -> (r: usize)
        ensures
            r == self.spec_viewports().spec_len(),
    {
        proof {
            use_type_invariant(self);
        }
        self.viewports.len()
    }

    /// Number of live entities.
    pub fn entity_count(&self) -> (r: usize)
        ensures
            r == self.spec_entities().spec_len(),
    {
        proof {
            use_type_invariant(self);
        }
        self.entities.len()
    }

    /// Stores a component for `(resource, entity)`.  Returns `None` when
    /// the resource id has no storage or the storage is full; otherwise the
    /// prior component, if any, wrapped once more.
    pub fn insert_component(
        &mut self,
        resource_id: StandardVersionedIndexId,
        entity_id: StandardVersionedIndexId,
        payload: C,
    ) -> (r: Option<Option<C>>)
        ensures
            r is Some <==> ({
                &&& 0 <= resource_id.spec_index() < old(self).spec_storages().len()
                &&& old(self).spec_storages()[resource_id.spec_index()] is Some
                &&& (match old(self).spec_storages()[resource_id.spec_index()].unwrap() {
                    ResourceStorage::EntityComponent(s) => s.spec_get(entity_id) is Some
                        || s.spec_dense_count() < MAX_INDEX as int,
                    ResourceStorage::EntityComponentSlice(_) => false,
                })
            }),
            match r {
                Some(prev) => {
                    &&& prev == old(self).spec_component(resource_id, entity_id)
                    &&& final(self).spec_component(resource_id, entity_id) == Some(payload)
                    &&& forall|rid: StandardVersionedIndexId, eid: StandardVersionedIndexId|
                        rid.spec_index() != resource_id.spec_index() || eid.spec_index()
                            != entity_id.spec_index() ==> final(self).spec_component(rid, eid)
                            == old(self).spec_component(rid, eid)
                },
                None => final(self).spec_storages() == old(self).spec_storages(),
            },
            final(self).spec_entities() == old(self).spec_entities(),
            final(self).spec_viewports() == old(self).spec_viewports(),
            final(self).spec_storages().len() == old(self).spec_storages().len(),
            r is Some ==> (forall|k2: int|
                0 <= k2 < old(self).spec_storages().len() && k2 != resource_id.spec_index()
                    ==> final(self).spec_storages()[k2] == old(self).spec_storages()[k2]),
            r is Some ==> final(self).spec_storages()[resource_id.spec_index()] is Some && (
            match (final(self).spec_storages()[resource_id.spec_index()].unwrap(), old(
                self,
            ).spec_storages()[resource_id.spec_index()].unwrap()) {
                (ResourceStorage::EntityComponent(s2), ResourceStorage::EntityComponent(s1)) => {
                    &&& s2.spec_dense_count() <= s1.spec_dense_count() + 1
                    &&& (s1.spec_get(entity_id) is Some ==> s2.spec_dense_count()
                        == s1.spec_dense_count())
                    &&& s2.spec_get(entity_id) is Some
                },
                _ => false,
            }),
            r is None ==> final(self).spec_storages() == old(self).spec_storages(),
    {
        proof {
            use_type_invariant(&*self);
        }
        let index = resource_id.index();
        if index >= self.resources.len() {
            return None;
        }
        let mut resources: Vec<Option<ResourceStorage<C>>> = Vec::new();
        core::mem::swap(&mut resources, &mut self.resources);
        let mut slot: Option<ResourceStorage<C>> = None;
        core::mem::swap(&mut slot, &mut resources[index]);
        let r = match slot {
            Some(ResourceStorage::EntityComponent(mut s)) => {
                if s.dense_count() < MAX_INDEX as usize || s.get(entity_id).is_some() {
                    let prev = s.insert(entity_id, payload);
                    resources[index] = Some(ResourceStorage::EntityComponent(s));
                    Some(prev)
                } else {
                    resources[index] = Some(ResourceStorage::EntityComponent(s));
                    None
                }
            },
            Some(ResourceStorage::EntityComponentSlice(s)) => {
                resources[index] = Some(ResourceStorage::EntityComponentSlice(s));
                None
            },
            None => {
                resources[index] = None;
                None
            },
        };
        self.resources = resources;
        proof {
            if r is Some {
                assert(self.spec_storages() =~= old(self).spec_storages().update(
                    index as int,
                    self.resources@[index as int],
                ));
            } else {
                assert(self.resources@ =~= old(self).resources@);
            }
        }
        r
    }

    /// Stores a slice of values for `(resource, entity)`.  Returns `false`,
    /// changing nothing, when the resource has no storage, is not
    /// slice-backed, or the backing buffer cannot hold the values.
    pub fn insert_component_slice(
        &mut self,
        resource_id: StandardVersionedIndexId,
        entity_id: StandardVersionedIndexId,
        values: Vec<C>,
    ) -> (r: bool)
        ensures
            final(self).spec_entities() == old(self).spec_entities(),
            final(self).spec_viewports() == old(self).spec_viewports(),
            final(self).spec_storages().len() == old(self).spec_storages().len(),
            r ==> final(self).spec_component_slice(resource_id, entity_id) == Some(values@),
            r ==> 0 <= resource_id.spec_index() < old(self).spec_storages().len() && old(
                self,
            ).spec_storages()[resource_id.spec_index()] is Some && !storage_single_value(
                old(self).spec_storages(),
                resource_id,
            ),
            r ==> (forall|k2: int|
                0 <= k2 < old(self).spec_storages().len() && k2 != resource_id.spec_index()
                    ==> final(self).spec_storages()[k2] == old(self).spec_storages()[k2]),
            !r ==> final(self).spec_storages() == old(self).spec_storages(),
    {
        proof {
            use_type_invariant(&*self);
        }
        let index = resource_id.index();
        if index >= self.resources.len() {
            return false;
        }
        let mut resources: Vec<Option<ResourceStorage<C>>> = Vec::new();
        core::mem::swap(&mut resources, &mut self.resources);
        let mut slot: Option<ResourceStorage<C>> = None;
        core::mem::swap(&mut slot, &mut resources[index]);
        let r = match slot {
            Some(ResourceStorage::EntityComponentSlice(mut s)) => {
                if s.buffer_len() <= usize::MAX - values.len() {
                    s.insert_slice(entity_id, values);
                    resources[index] = Some(ResourceStorage::EntityComponentSlice(s));
                    true
                } else {
                    resources[index] = Some(ResourceStorage::EntityComponentSlice(s));
                    false
                }
            },
            Some(ResourceStorage::EntityComponent(s)) => {
                resources[index] = Some(ResourceStorage::EntityComponent(s));
                false
            },
            None => {
                resources[index] = None;
                false
            },
        };
        self.resources = resources;
        proof {
            if r {
                assert(self.spec_storages() =~= old(self).spec_storages().update(
                    index as int,
                    self.resources@[index as int],
                ));
            } else {
                assert(self.resources@ =~= old(self).resources@);
            }
        }
        r
    }

    /// The component slice stored for `(resource, entity)`, if any.
    pub fn component_slice(
        &self,
        resource_id: StandardVersionedIndexId,
        entity_id: StandardVersionedIndexId,
    ) -> (r: Option<Vec<&C>>)
        ensures
            match r {
                Some(refs) => self.spec_component_slice(resource_id, entity_id) is Some
                    && refs@.len() == self.spec_component_slice(
                    resource_id,
                    entity_id,
                ).unwrap().len() && (forall|i: int|
                    0 <= i < refs@.len() ==> *(#[trigger] refs@[i])
                        == self.spec_component_slice(resource_id, entity_id).unwrap()[i]),
                None => self.spec_component_slice(resource_id, entity_id) is None,
            },
    {
        proof {
            use_type_invariant(self);
        }
        let index = resource_id.index();
        if index >= self.resources.len() {
            return None;
        }
        match &self.resources[index] {
            Some(ResourceStorage::EntityComponentSlice(s)) => s.get(entity_id),
            Some(ResourceStorage::EntityComponent(_)) => None,
            None => None,
        }
    }

    /// The component stored for `(resource, entity)`, if any.
    pub fn component(
        &self,
        resource_id: StandardVersionedIndexId,
        entity_id: StandardVersionedIndexId,
    ) -> (r: Option<&C>)
        ensures
            match r {
                Some(v) => self.spec_component(resource_id, entity_id) == Some(*v),
                None => self.spec_component(resource_id, entity_id) is None,
            },
    {
        proof {
            use_type_invariant(self);
        }
        let index = resource_id.index();
        if index >= self.resources.len() {
            return None;
        }
        match &self.resources[index] {
            Some(ResourceStorage::EntityComponent(s)) => s.get(entity_id),
            Some(ResourceStorage::EntityComponentSlice(_)) => None,
            None => None,
        }
    }

    /// Removes the component stored for `(resource, entity)`; returns it if
    /// one was there.
    pub fn remove_component(
        &mut self,
        resource_id: StandardVersionedIndexId,
        entity_id: StandardVersionedIndexId,
    ) -> (r: Option<C>)
        ensures
            r == old(self).spec_component(resource_id, entity_id),
            final(self).spec_component(resource_id, entity_id) is None,
            forall|rid: StandardVersionedIndexId, eid: StandardVersionedIndexId|
                rid.spec_index() != resource_id.spec_index() || eid.spec_index()
                    != entity_id.spec_index() ==> final(self).spec_component(rid, eid) == old(
                    self,
                ).spec_component(rid, eid),
            final(self).spec_entities() == old(self).spec_entities(),
            final(self).spec_viewports() == old(self).spec_viewports(),
            final(self).spec_storages().len() == old(self).spec_storages().len(),
    {
        proof {
            use_type_invariant(&*self);
        }
        let index = resource_id.index();
        if index >= self.resources.len() {
            return None;
        }
        let mut resources: Vec<Option<ResourceStorage<C>>> = Vec::new();
        core::mem::swap(&mut resources, &mut self.resources);
        let mut slot: Option<ResourceStorage<C>> = None;
        core::mem::swap(&mut slot, &mut resources[index]);
        let r = match slot {
            Some(ResourceStorage::EntityComponentSlice(s)) => {
                resources[index] = Some(ResourceStorage::EntityComponentSlice(s));
                None
            },
            Some(ResourceStorage::EntityComponent(mut s)) => {
                let prev = s.remove(entity_id);
                resources[index] = Some(ResourceStorage::EntityComponent(s));
                prev
            },
            None => {
                resources[index] = None;
                None
            },
        };
        self.resources = resources;
        proof {
            assert(self.spec_storages() =~= old(self).spec_storages().update(
                index as int,
                self.resources@[index as int],
            ));
        }
        r
    }
}


/// Every entry of a converted scene document carries a component list and
/// every listed label is registered.
pub open spec fn scene_doc_ok<C>(
    registry: ResourceRegistry,
    doc: Seq<Option<Vec<(String, C)>>>,
) -> bool {
    forall|k: int|
        0 <= k < doc.len() ==> (#[trigger] doc[k]) is Some && (forall|i: int|
            0 <= i < doc[k].unwrap()@.len() ==> registry.spec_has_label(
                (#[trigger] doc[k].unwrap()@[i]).0@,
            ))
}

/// Position `i` holds the last occurrence of its label in `components`
/// before `upto`.
pub open spec fn last_label_before<C>(
    components: Seq<(String, C)>,
    i: int,
    upto: int,
) -> bool {
    forall|j: int| i < j < upto ==> (#[trigger] components[j]).0@ != components[i].0@
}

/// The component at position `i` of `components` is stored for `eid` under
/// a resource registered with its label.
pub open spec fn component_stored<C>(
    state: SceneState<C>,
    registry: ResourceRegistry,
    components: Seq<(String, C)>,
    i: int,
    eid: StandardVersionedIndexId,
) -> bool {
    exists|rid: StandardVersionedIndexId|
        (#[trigger] registry.spec_resource(rid)) is Some && registry.spec_resource(
            rid,
        ).unwrap().spec_label() == components[i].0@ && state.spec_component(rid, eid) == Some(
            components[i].1,
        )
}

/// Every component of `entry` whose label does not recur later in the
/// entry is stored for `eid`.
pub open spec fn entry_applied<C>(
    state: SceneState<C>,
    registry: ResourceRegistry,
    entry: Option<Vec<(String, C)>>,
    eid: StandardVersionedIndexId,
) -> bool {
    forall|i: int|
        0 <= i < entry.unwrap()@.len() && last_label_before(
            entry.unwrap()@,
            i,
            entry.unwrap()@.len() as int,
        ) ==> component_stored(state, registry, entry.unwrap()@, i, eid)
}

/// The origin recorded on errors raised while building a scene.
fn scene_location() -> SourceLocation {
    SourceLocation::TextFile { filename: String::from_str("scene"), line: 0 }
}

impl<C> SceneState<C> {
    /// Applies a converted scene document: one entity per entry, with the
    /// listed components inserted under their labels' resource ids.  An
    /// entry without a component list, an unknown label, or an exhausted id
    /// space or storage raises the matching error.
    pub fn apply_scene_doc(
        &mut self,
        registry: &ResourceRegistry,
        doc: Vec<Option<Vec<(String, C)>>>,
    ) -> (r: (Result<(), Error>, Ghost<Seq<StandardVersionedIndexId>>))
        requires
            registry.wf(),
            storages_cover(old(self).spec_storages(), *registry),
        ensures
            final(self).spec_viewports() == old(self).spec_viewports(),
            scene_doc_ok(*registry, doc@) && old(self).spec_entities().spec_len() + doc@.len()
                <= MAX_INDEX as int && (forall|rid: StandardVersionedIndexId|
                (#[trigger] registry.spec_resource(rid)) is Some ==> storage_single_value(
                    old(self).spec_storages(),
                    rid,
                ) && storage_dense(old(self).spec_storages(), rid) + doc@.len() <= MAX_INDEX
                    as int) ==> r.0 is Ok,
            r.0 is Ok ==> scene_doc_ok(*registry, doc@)
                && final(self).spec_entities().spec_len() == old(self).spec_entities().spec_len()
                + doc@.len(),
            !scene_doc_ok(*registry, doc@) ==> r.0 is Err,
            r.0 is Ok ==> r.1@.len() == doc@.len() && (forall|k: int|
                #![trigger doc@[k]]
                0 <= k < doc@.len() ==> final(self).spec_entities().spec_contains(r.1@[k])
                    && entry_applied(*final(self), *registry, doc@[k], r.1@[k])),
            r.0 is Err ==> ({
                ||| ((exists|k: int| 0 <= k < doc@.len() && (#[trigger] doc@[k]) is None)
                    && r.0->Err_0.spec_message() == "components field not found"@)
                ||| (exists|k: int, i: int|
                    0 <= k < doc@.len() && doc@[k] is Some && 0 <= i < doc@[k].unwrap()@.len()
                        && !registry.spec_has_label((#[trigger] doc@[k].unwrap()@[i]).0@)
                        && r.0->Err_0.spec_message() == "invalid entity component: "@
                        + doc@[k].unwrap()@[i].0@)
                ||| (r.0->Err_0.spec_message() == "entity id space exhausted"@ && old(
                    self,
                ).spec_entities().spec_len() + doc@.len() > MAX_INDEX as int)
                ||| (r.0->Err_0.spec_message() == "resource storage unavailable"@ && exists|
                    rid: StandardVersionedIndexId,
                |
                    (#[trigger] registry.spec_resource(rid)) is Some && (!storage_single_value(
                        old(self).spec_storages(),
                        rid,
                    ) || storage_dense(old(self).spec_storages(), rid) + doc@.len()
                        >= MAX_INDEX as int))
            }),
    {
        let mut remaining = doc;
        let ghost original = remaining@;
        let doc_len = remaining.len();
        let ghost mut eids: Seq<StandardVersionedIndexId> = Seq::empty();
        proof {
            assert(original.len() == doc_len as int);
        }
        let mut k: usize = 0;
        while remaining.len() > 0
            invariant
                registry.wf(),
                original == doc@,
                original.len() <= usize::MAX as int,
                k as int + remaining@.len() == original.len(),
                remaining@ == original.skip(k as int),
                forall|k2: int|
                    0 <= k2 < k ==> (#[trigger] original[k2]) is Some && (forall|i: int|
                        0 <= i < original[k2].unwrap()@.len() ==> registry.spec_has_label(
                            (#[trigger] original[k2].unwrap()@[i]).0@,
                        )),
                self.spec_entities().spec_len() == old(self).spec_entities().spec_len()
                    + k as int,
                self.spec_viewports() == old(self).spec_viewports(),
                self.spec_storages().len() == old(self).spec_storages().len(),
                storages_cover(self.spec_storages(), *registry),
                forall|rid: StandardVersionedIndexId|
                    (#[trigger] registry.spec_resource(rid)) is Some ==> (storage_single_value(
                        self.spec_storages(),
                        rid,
                    ) <==> storage_single_value(old(self).spec_storages(), rid)),
                forall|rid: StandardVersionedIndexId|
                    (#[trigger] registry.spec_resource(rid)) is Some ==> storage_dense(
                        self.spec_storages(),
                        rid,
                    ) <= storage_dense(old(self).spec_storages(), rid) + k as int,
                eids.len() == k,
                forall|k2: int|
                    0 <= k2 < k ==> self.spec_entities().spec_contains(#[trigger] eids[k2]),
                forall|k2: int|
                    0 <= k2 < k ==> entry_applied(
                        *self,
                        *registry,
                        #[trigger] original[k2],
                        eids[k2],
                    ),
            decreases remaining@.len(),
        {
            let entry = remaining.remove(0);
            proof {
                assert(original.skip(k as int)[0] == entry);
                assert(original[k as int] == entry);
                assert(remaining@ =~= original.skip(k as int + 1));
            }
            let components = match entry {
                Some(c) => c,
                None => {
                    proof {
                        assert(original[k as int] is None);
                        assert(!scene_doc_ok(*registry, original));
                    }
                    return (
                        Err(
                            Error::new(
                                String::from_str("components field not found"),
                                scene_location(),
                            ),
                        ),
                        Ghost(eids),
                    );
                },
            };
            let ghost before_reserve = *self;
            let eid = match self.reserve_entity() {
                Some(id) => id,
                None => {
                    return (
                        Err(
                            Error::new(
                                String::from_str("entity id space exhausted"),
                                scene_location(),
                            ),
                        ),
                        Ghost(eids),
                    );
                },
            };
            let mut comps = components;
            let ghost comp_orig = comps@;
            let comps_len = comps.len();
            proof {
                assert(comp_orig.len() == comps_len as int);
                assert forall|k2: int|
                    0 <= k2 < k implies entry_applied(
                    *self,
                    *registry,
                    #[trigger] original[k2],
                    eids[k2],
                ) by {
                    assert(entry_applied(before_reserve, *registry, original[k2], eids[k2]));
                    assert forall|i2: int|
                        0 <= i2 < original[k2].unwrap()@.len() && last_label_before(
                            original[k2].unwrap()@,
                            i2,
                            original[k2].unwrap()@.len() as int,
                        ) implies component_stored(
                        *self,
                        *registry,
                        original[k2].unwrap()@,
                        i2,
                        eids[k2],
                    ) by {
                        assert(component_stored(
                            before_reserve,
                            *registry,
                            original[k2].unwrap()@,
                            i2,
                            eids[k2],
                        ));
                        let rid2 = choose|rid2: StandardVersionedIndexId|
                            (#[trigger] registry.spec_resource(rid2)) is Some
                                && registry.spec_resource(rid2).unwrap().spec_label()
                                == original[k2].unwrap()@[i2].0@ && before_reserve.spec_component(
                                rid2,
                                eids[k2],
                            ) == Some(original[k2].unwrap()@[i2].1);
                        assert(self.spec_component(rid2, eids[k2])
                            == before_reserve.spec_component(rid2, eids[k2]));
                    }
                }
            }
            let mut i: usize = 0;
            while comps.len() > 0
                invariant
                    registry.wf(),
                    original == doc@,
                    comp_orig.len() <= usize::MAX as int,
                    0 <= k as int,
                    (k as int) < original.len(),
                    original[k as int] is Some,
                    original[k as int].unwrap()@ == comp_orig,
                    i as int + comps@.len() == comp_orig.len(),
                    comps@ == comp_orig.skip(i as int),
                    self.spec_entities().spec_len() == old(self).spec_entities().spec_len() + k
                        as int + 1,
                    self.spec_viewports() == old(self).spec_viewports(),
                    self.spec_storages().len() == old(self).spec_storages().len(),
                    storages_cover(self.spec_storages(), *registry),
                    forall|rid: StandardVersionedIndexId|
                        (#[trigger] registry.spec_resource(rid)) is Some ==> (storage_single_value(
                            self.spec_storages(),
                            rid,
                        ) <==> storage_single_value(old(self).spec_storages(), rid)),
                    forall|rid: StandardVersionedIndexId|
                        (#[trigger] registry.spec_resource(rid)) is Some ==> storage_dense(
                            self.spec_storages(),
                            rid,
                        ) <= storage_dense(old(self).spec_storages(), rid) + k as int + (
                        if storage_has_entry(self.spec_storages(), rid, eid) {
                            1int
                        } else {
                            0int
                        }),
                    forall|k2: int|
                        0 <= k2 < k ==> (#[trigger] original[k2]) is Some && (forall|i2: int|
                            0 <= i2 < original[k2].unwrap()@.len() ==> registry.spec_has_label(
                                (#[trigger] original[k2].unwrap()@[i2]).0@,
                            )),
                    forall|i2: int|
                        0 <= i2 < i ==> registry.spec_has_label(
                            (#[trigger] comp_orig[i2]).0@,
                        ),
                    eids.len() == k,
                    self.spec_entities().spec_contains(eid),
                    forall|k2: int|
                        0 <= k2 < k ==> self.spec_entities().spec_contains(#[trigger] eids[k2])
                            && eids[k2] != eid,
                    forall|k2: int|
                        0 <= k2 < k ==> entry_applied(
                            *self,
                            *registry,
                            #[trigger] original[k2],
                            eids[k2],
                        ),
                    forall|i2: int|
                        0 <= i2 < i && last_label_before(comp_orig, i2, i as int)
                            ==> component_stored(*self, *registry, comp_orig, i2, eid),
                decreases comps@.len(),
            {
                let (label, value) = comps.remove(0);
                proof {
                    assert(comp_orig.skip(i as int)[0] == comp_orig[i as int]);
                    assert(comps@ =~= comp_orig.skip(i as int + 1));
                }
                let rid = match crate::resource::resource_id_from_label(
                    registry,
                    label.as_str(),
                ) {
                    Some(rid) => rid,
                    None => {
                        proof {
                            assert(original[k as int].unwrap()@[i as int].0@ == label@);
                            assert(!scene_doc_ok(*registry, original));
                        }
                        let mut message = String::from_str("invalid entity component: ");
                        message.append(label.as_str());
                        return (Err(Error::new(message, scene_location())), Ghost(eids));
                    },
                };
                let ghost pre_state = *self;
                match self.insert_component(rid, eid, value) {
                    Some(_) => {},
                    None => {
                        return (
                            Err(
                                Error::new(
                                    String::from_str("resource storage unavailable"),
                                    scene_location(),
                                ),
                            ),
                            Ghost(eids),
                        );
                    },
                }
                proof {
                    assert(self.spec_component(rid, eid) == Some(value));
                    assert forall|k2: int|
                        0 <= k2 < k implies entry_applied(
                        *self,
                        *registry,
                        #[trigger] original[k2],
                        eids[k2],
                    ) by {
                        assert(entry_applied(pre_state, *registry, original[k2], eids[k2]));
                        assert forall|i2: int|
                            0 <= i2 < original[k2].unwrap()@.len() && last_label_before(
                                original[k2].unwrap()@,
                                i2,
                                original[k2].unwrap()@.len() as int,
                            ) implies component_stored(
                            *self,
                            *registry,
                            original[k2].unwrap()@,
                            i2,
                            eids[k2],
                        ) by {
                            assert(component_stored(
                                pre_state,
                                *registry,
                                original[k2].unwrap()@,
                                i2,
                                eids[k2],
                            ));
                            let rid2 = choose|rid2: StandardVersionedIndexId|
                                (#[trigger] registry.spec_resource(rid2)) is Some
                                    && registry.spec_resource(rid2).unwrap().spec_label()
                                    == original[k2].unwrap()@[i2].0@ && pre_state.spec_component(
                                    rid2,
                                    eids[k2],
                                ) == Some(original[k2].unwrap()@[i2].1);
                            if eid.spec_index() == eids[k2].spec_index() {
                                self.spec_entities().lemma_contains_index_unique(
                                    eid,
                                    eids[k2],
                                );
                            }
                            assert(eid.spec_index() != eids[k2].spec_index());
                            assert(self.spec_component(rid2, eids[k2])
                                == pre_state.spec_component(rid2, eids[k2]));
                        }
                    }
                    assert forall|i2: int|
                        0 <= i2 < i + 1 && last_label_before(comp_orig, i2, i + 1)
                            implies component_stored(*self, *registry, comp_orig, i2, eid) by {
                        if i2 < i as int {
                            assert(last_label_before(comp_orig, i2, i as int));
                            let rid2 = choose|rid2: StandardVersionedIndexId|
                                (#[trigger] registry.spec_resource(rid2)) is Some
                                    && registry.spec_resource(rid2).unwrap().spec_label()
                                    == comp_orig[i2].0@ && pre_state.spec_component(rid2, eid)
                                    == Some(comp_orig[i2].1);
                            assert(comp_orig[i2].0@ != comp_orig[i as int].0@);
                            if rid2.spec_index() == rid.spec_index() {
                                registry.lemma_resource_index_unique(rid2, rid);
                            }
                            assert(self.spec_component(rid2, eid) == pre_state.spec_component(
                                rid2,
                                eid,
                            ));
                        } else {
                            assert(comp_orig[i as int].0@ == label@);
                            assert(component_stored(*self, *registry, comp_orig, i2, eid));
                        }
                    }
                }
                i = i + 1;
            }
            proof {
                eids = eids.push(eid);
            }
            k = k + 1;
        }
        proof {
            assert(original =~= original.skip(0));
            assert(scene_doc_ok(*registry, original));
            assert forall|k2: int| #![trigger doc@[k2]]
                0 <= k2 < doc@.len() implies self.spec_entities().spec_contains(eids[k2])
                && entry_applied(*self, *registry, doc@[k2], eids[k2]) by {
                assert(doc@[k2] == original[k2]);
            }
        }
        (Ok(()), Ghost(eids))
    }
}

/// A live world together with the scheduler that drives its frames.
pub struct Scene<C, F> {
    state: SceneState<C>,
    scheduler: Scheduler<F>,
}

impl<C, F> Scene<C, F> {
    /// The world the jobs work on.
    pub closed spec fn spec_state(self) -> SceneState<C> {
        self.state
    }

    /// The frame scheduler.
    pub closed spec fn spec_scheduler(self) -> Scheduler<F> {
        self.scheduler
    }

    /// A scene is intact when its scheduler is at rest between frames.
    pub open spec fn wf(self) -> bool {
        self.spec_scheduler().wf()
    }

    /// Builds a scene over the update jobs of the registry; fails fast on a
    /// cyclic job dependency.
    pub fn new(
        job_registry: &JobRegistry<F>,
        resource_registry: &ResourceRegistry,
    ) -> (r: Result<Self, Error>) where F: Copy
        requires
            job_registry.wf(),
            resource_registry.wf(),
        ensures
            match r {
                Ok(scene) => {
                    let s = scene.spec_scheduler();
                    &&& scene.wf()
                    &&& scene.spec_state().spec_entities().spec_len() == 0
                    &&& scene.spec_state().spec_viewports().spec_len() == 0
                    &&& storages_cover(scene.spec_state().spec_storages(), *resource_registry)
                    &&& (forall|rid: StandardVersionedIndexId|
                        (#[trigger] resource_registry.spec_resource(rid)) is Some
                            ==> storage_dense(scene.spec_state().spec_storages(), rid) == 0)
                    &&& (forall|rid: StandardVersionedIndexId|
                        (#[trigger] resource_registry.spec_resource(rid)) is Some ==> (
                        storage_single_value(scene.spec_state().spec_storages(), rid)
                            <==> resource_registry.spec_resource(rid).unwrap().spec_family()
                            == StorageFamily::SingleValue))
                    &&& forall|rid: StandardVersionedIndexId, eid: StandardVersionedIndexId|
                        scene.spec_state().spec_component(rid, eid) is None
                    &&& s.spec_last_run() == Seq::<
                        (int, Option<StandardVersionedIndexId>, Result<(), Error>),
                    >::empty()
                    &&& forall|j: int|
                        0 <= j < s.spec_job_count() ==> {
                            let source = job_registry.spec_job(#[trigger] s.spec_job_id(j));
                            &&& source is Some
                            &&& source.unwrap().spec_kind() == JobKind::Update
                            &&& source.unwrap().spec_function() == s.spec_function(j)
                            &&& source.unwrap().spec_per_viewport() == s.spec_per_viewport(j)
                        }
                    &&& forall|j1: int, j2: int|
                        0 <= j1 < j2 < s.spec_job_count() ==> s.spec_job_id(j1) != s.spec_job_id(
                            j2,
                        )
                    &&& forall|id: StandardVersionedIndexId|
                        (#[trigger] job_registry.spec_job(id)) is Some && job_registry.spec_job(
                            id,
                        ).unwrap().spec_kind() == JobKind::Update ==> exists|j: int|
                            0 <= j < s.spec_job_count() && s.spec_job_id(j) == id
                    &&& forall|j: int, p: int|
                        0 <= j < s.spec_job_count() && 0 <= p < s.spec_job_count() ==> ((
                        #[trigger] s.spec_predecessors(j).contains(p as usize))
                            <==> job_registry.spec_job(
                            s.spec_job_id(j),
                        ).unwrap().spec_dependencies().contains(s.spec_job_id(p)))
                    &&& exists|order: Seq<int>| s.spec_topological_order(order)
                    &&& exists|order: Seq<StandardVersionedIndexId>|
                        crate::scheduler::registry_topological_order(
                            *job_registry,
                            JobKind::Update,
                            order,
                        )
                },
                Err(e) => e.spec_message() == "cyclic job dependency"@ && !exists|
                    order: Seq<StandardVersionedIndexId>,
                | crate::scheduler::registry_topological_order(
                    *job_registry,
                    JobKind::Update,
                    order,
                ),
            },
    {
        let scheduler = match Scheduler::new(job_registry, JobKind::Update) {
            Ok(s) => s,
            Err(e) => {
                return Err(e);
            },
        };
        let state = SceneState::new(resource_registry);
        let ghost sview = scheduler;
        let scene = Self { state, scheduler };
        proof {
            let order = choose|order: Seq<int>| sview.spec_topological_order(order);
            assert(scene.spec_scheduler() == sview);
            assert(scene.spec_scheduler().spec_topological_order(order));
        }
        Ok(scene)
    }

    /// The world the jobs work on.
    pub fn state(&self) -> (r: &SceneState<C>)
        ensures
            *r == self.spec_state(),
    {
        &self.state
    }

    /// Exclusive access to the world, for setup outside a frame.
    pub fn state_mut(&mut self) -> (r: &mut SceneState<C>)
        ensures
            *r == old(self).spec_state(),
            final(self).spec_state() == *final(r),
            final(self).spec_scheduler() == old(self).spec_scheduler(),
    {
        &mut self.state
    }

    /// Adds a viewport to the world, or `None` when the id space is full.
    pub fn add_viewport(&mut self, viewport: Viewport) -> (r: Option<StandardVersionedIndexId>)
        ensures
            final(self).spec_scheduler() == old(self).spec_scheduler(),
            final(self).spec_state().spec_entities() == old(self).spec_state().spec_entities(),
            final(self).spec_state().spec_storages() == old(self).spec_state().spec_storages(),
            match r {
                Some(id) => final(self).spec_state().spec_viewports().spec_get(id) == Some(
                    viewport,
                ) && final(self).spec_state().spec_viewports().spec_len() == old(
                    self,
                ).spec_state().spec_viewports().spec_len() + 1,
                None => {
                    &&& old(self).spec_state().spec_viewports().spec_slot_count() >= MAX_INDEX
                        as int
                    &&& old(self).spec_state().spec_viewports().spec_len() == old(
                        self,
                    ).spec_state().spec_viewports().spec_slot_count()
                    &&& final(self).spec_state() == old(self).spec_state()
                },
            },
    {
        self.state.add_viewport(viewport)
    }

    /// Runs one frame over the scene's viewports.  The host supplies the
    /// accumulated game time and the frame delta, both as `f32` bits.
    pub fn tick(&mut self, game_time_bits: u32, delta_time_bits: u32) -> (r: Result<
        (),
        Error,
    >) where F: Copy + Fn(&mut SystemResources, &mut SceneState<C>) -> Result<(), Error>
        requires
            old(self).wf(),
            forall|j: int, sr: &mut SystemResources, st: &mut SceneState<C>|
                0 <= j < old(self).spec_scheduler().spec_job_count() ==> #[trigger] call_requires(
                    old(self).spec_scheduler().spec_function(j),
                    (sr, st),
                ),
        ensures
            final(self).wf(),
            final(self).spec_scheduler().same_graph(old(self).spec_scheduler()),
            ({
                let log = final(self).spec_scheduler().spec_last_run();
                let pre = old(self).spec_scheduler();
                let snapshot = old(self).spec_state().spec_viewports().spec_live_ids();
                let expected = pre.spec_expected_executions(snapshot.len() as int);
                &&& (forall|k: int|
                    0 <= k < log.len() ==> {
                        let entry = #[trigger] log[k];
                        &&& 0 <= entry.0 < pre.spec_job_count()
                        &&& (entry.1 is Some <==> pre.spec_per_viewport(entry.0))
                        &&& (entry.1 is Some ==> old(
                            self,
                        ).spec_state().spec_viewports().spec_contains(entry.1.unwrap()))
                    })
                &&& (forall|k1: int, k2: int|
                    0 <= k1 < k2 < log.len() ==> !(log[k1].0 == log[k2].0 && log[k1].1
                        == log[k2].1))
                &&& (r is Ok ==> log.len() == expected && (forall|k: int|
                    0 <= k < log.len() ==> (#[trigger] log[k]).2 is Ok))
                &&& (r is Err ==> ({
                    ||| (log.len() > 0 && log[log.len() - 1].2 == r && (forall|k: int|
                        0 <= k < log.len() - 1 ==> (#[trigger] log[k]).2 is Ok))
                    ||| ((forall|k: int| 0 <= k < log.len() ==> (#[trigger] log[k]).2 is Ok)
                        && log.len() != expected && r->Err_0.spec_message()
                        == "frame did not complete"@)
                    ||| ((forall|k: int| 0 <= k < log.len() ==> (#[trigger] log[k]).2 is Ok)
                        && log.len() == expected && r->Err_0.spec_message()
                        == "entity id space exhausted"@
                        && final(self).spec_state().spec_entities().spec_slot_count()
                        >= MAX_INDEX as int)
                }))
                &&& (pre.spec_job_count() == 0 ==> r is Ok)
                &&& ((exists|order: Seq<int>| pre.spec_topological_order(order)) && old(
                    self,
                ).spec_state().spec_viewports().spec_len() > 0 && (forall|k: int|
                    0 <= k < log.len() ==> (#[trigger] log[k]).2 is Ok) ==> log.len()
                    == expected)
                &&& (forall|k: int|
                    0 <= k < log.len() ==> crate::scheduler::job_result_possible::<C, F>(
                        pre.spec_function(log[k].0),
                        (#[trigger] log[k]).2,
                        game_time_bits,
                        delta_time_bits,
                        log[k].1,
                    ))
                &&& (r is Ok ==> (forall|j: int|
                    0 <= j < pre.spec_job_count() && !(#[trigger] pre.spec_per_viewport(j))
                        ==> exists|k: int|
                        0 <= k < log.len() && log[k].0 == j && log[k].1 is None))
                &&& (r is Ok ==> (forall|j: int, v: StandardVersionedIndexId|
                    0 <= j < pre.spec_job_count() && (#[trigger] pre.spec_per_viewport(j)) && (
                    #[trigger] old(self).spec_state().spec_viewports().spec_contains(v))
                        ==> exists|k: int|
                        0 <= k < log.len() && log[k].0 == j && log[k].1 == Some(v)))
                &&& (forall|k: int, p: usize|
                    0 <= k < log.len() && (#[trigger] pre.spec_predecessors(log[k].0).contains(
                        p,
                    )) && !pre.spec_per_viewport(p as int) ==> exists|k2: int|
                        0 <= k2 < k && log[k2].0 == p as int && log[k2].1 is None)
                &&& (forall|k: int, p: usize, v: StandardVersionedIndexId|
                    0 <= k < log.len() && (#[trigger] pre.spec_predecessors(log[k].0).contains(
                        p,
                    )) && pre.spec_per_viewport(p as int) && (#[trigger] old(
                        self,
                    ).spec_state().spec_viewports().spec_contains(v)) ==> exists|k2: int|
                        0 <= k2 < k && log[k2].0 == p as int && log[k2].1 == Some(v))
                &&& ({
                    let post = final(self).spec_scheduler().spec_last_frame_entities();
                    let despawns = final(self).spec_scheduler().spec_last_despawns();
                    let spawns = final(self).spec_scheduler().spec_last_spawn_count();
                    let ran = (forall|k: int|
                        0 <= k < log.len() ==> (#[trigger] log[k]).2 is Ok) && log.len()
                        == expected;
                    &&& spawns >= 0
                    &&& (!ran ==> final(self).spec_state().spec_entities() == post)
                    &&& (ran ==> (forall|id: StandardVersionedIndexId|
                        despawns.contains(id) && post.spec_contains(id)
                            ==> !final(self).spec_state().spec_entities().spec_contains(id)) && (
                    forall|id: StandardVersionedIndexId|
                        !despawns.contains(id) && post.spec_contains(id)
                            ==> final(self).spec_state().spec_entities().spec_contains(id)))
                    &&& (ran && r is Ok ==> final(self).spec_state().spec_entities().spec_len()
                        == post.spec_len() - count_freed(despawns, post, despawns.len() as int)
                        + spawns)
                    &&& (ran && r is Err ==> final(self).spec_state().spec_entities().spec_len()
                        == MAX_INDEX as int)
                })
            }),
    {
        self.scheduler.run_jobs(&mut self.state, game_time_bits, delta_time_bits)
    }
}

/// The entity list of a scene document value, through the named wrapper
/// results: the `"entities"` member read as an array.
pub open spec fn scene_json_entities(json: serde_json::Value) -> Option<
    Seq<serde_json::Value>,
> {
    match field_of(json, "entities"@) {
        Some(v) => elements_of(v),
        None => None,
    }
}

/// The component entries of one entity value: its `"components"` member
/// read as an object, or `None` when either step fails.
pub open spec fn scene_json_entry(entity: serde_json::Value) -> Option<
    Seq<(Seq<char>, serde_json::Value)>,
> {
    match field_of(entity, "components"@) {
        Some(c) => entries_of(c),
        None => None,
    }
}

/// `comps` is the converted component list of `entity`: present exactly
/// when the entity's entries are readable, with labels and values intact.
pub open spec fn json_entry_matches(
    entity: serde_json::Value,
    comps: Option<Vec<(String, serde_json::Value)>>,
) -> bool {
    match scene_json_entry(entity) {
        Some(es) => comps is Some && comps.unwrap()@.len() == es.len() && (forall|i: int|
            0 <= i < es.len() ==> (#[trigger] comps.unwrap()@[i]).0@ == es[i].0
                && comps.unwrap()@[i].1 == es[i].1),
        None => comps is None,
    }
}

/// The two messages raised before the document is applied name neither an
/// application failure nor an unknown label.
proof fn lemma_builder_message_distinct(msg: Seq<char>)
    requires
        msg == "cyclic job dependency"@ || msg == "no entities found in scene JSON"@,
    ensures
        msg != "components field not found"@,
        msg != "entity id space exhausted"@,
        msg != "resource storage unavailable"@,
        !(exists|label: Seq<char>| msg == "invalid entity component: "@ + label),
{
    reveal_strlit("cyclic job dependency");
    reveal_strlit("no entities found in scene JSON");
    reveal_strlit("components field not found");
    reveal_strlit("invalid entity component: ");
    reveal_strlit("entity id space exhausted");
    reveal_strlit("resource storage unavailable");
    assert(("cyclic job dependency"@).len() == 21);
    assert(("no entities found in scene JSON"@).len() == 31);
    assert(("components field not found"@).len() == 26);
    assert(("entity id space exhausted"@).len() == 25);
    assert(("resource storage unavailable"@).len() == 28);
    if exists|label: Seq<char>| msg == "invalid entity component: "@ + label {
        let label = choose|label: Seq<char>| msg == "invalid entity component: "@ + label;
        assert(msg[0] == ("invalid entity component: "@ + label)[0]);
        assert(msg[0] == 'i');
        assert(("cyclic job dependency"@)[0] == 'c');
        assert(("no entities found in scene JSON"@)[0] == 'n');
        assert(false);
    }
}

/// Some live entity of `state` carries exactly the components that
/// `entity`'s document entry lists.
pub open spec fn json_entry_stored(
    state: SceneState<serde_json::Value>,
    registry: ResourceRegistry,
    entity: serde_json::Value,
) -> bool {
    exists|eid: StandardVersionedIndexId, comps: Option<Vec<(String, serde_json::Value)>>|
        state.spec_entities().spec_contains(eid) && json_entry_matches(entity, comps)
            && #[trigger] entry_applied(state, registry, comps, eid)
}

impl<F> Scene<serde_json::Value, F> {
    /// Builds a scene and populates it from a JSON document of the shape
    /// `{"entities": [{"components": {"<label>": <value>, ...}}, ...]}`.
    /// The document is taken apart by the trusted value wrappers; the
    /// resulting plain entries go through
    /// [`SceneState::apply_scene_doc`], which carries the exact contract.
    pub fn from_json(
        job_registry: &JobRegistry<F>,
        resource_registry: &ResourceRegistry,
        json: &serde_json::Value,
    ) -> (r: Result<Self, Error>) where F: Copy
        requires
            job_registry.wf(),
            resource_registry.wf(),
        ensures
            r is Ok ==> r.unwrap().wf() && r.unwrap().spec_state().spec_viewports().spec_len()
                == 0,
            r is Err ==> ({
                ||| r->Err_0.spec_message() == "cyclic job dependency"@
                ||| r->Err_0.spec_message() == "no entities found in scene JSON"@
                ||| r->Err_0.spec_message() == "components field not found"@
                ||| (exists|label: Seq<char>|
                    r->Err_0.spec_message() == "invalid entity component: "@ + label)
                ||| r->Err_0.spec_message() == "entity id space exhausted"@
                ||| r->Err_0.spec_message() == "resource storage unavailable"@
            }),
            (exists|order: Seq<StandardVersionedIndexId>|
                crate::scheduler::registry_topological_order(
                    *job_registry,
                    JobKind::Update,
                    order,
                )) && scene_json_entities(*json) is Some && ({
                let ents = scene_json_entities(*json).unwrap();
                &&& (forall|rid: StandardVersionedIndexId|
                    (#[trigger] resource_registry.spec_resource(rid)) is Some
                        ==> resource_registry.spec_resource(rid).unwrap().spec_family()
                        == StorageFamily::SingleValue)
                &&& ents.len() <= MAX_INDEX as int
                &&& (forall|k: int|
                    0 <= k < ents.len() ==> (#[trigger] scene_json_entry(ents[k])) is Some)
                &&& (forall|k: int, i: int|
                    0 <= k < ents.len() && 0 <= i < scene_json_entry(ents[k]).unwrap().len()
                        ==> resource_registry.spec_has_label(
                        (#[trigger] scene_json_entry(ents[k]).unwrap()[i]).0,
                    ))
            }) ==> r is Ok,
            r is Ok ==> scene_json_entities(*json) is Some && ({
                let ents = scene_json_entities(*json).unwrap();
                &&& r.unwrap().spec_state().spec_entities().spec_len() == ents.len()
                &&& (forall|k: int|
                    0 <= k < ents.len() ==> json_entry_stored(
                        r.unwrap().spec_state(),
                        *resource_registry,
                        #[trigger] ents[k],
                    ))
            }),
            r is Err && r->Err_0.spec_message() == "no entities found in scene JSON"@
                ==> scene_json_entities(*json) is None,
            r is Err && r->Err_0.spec_message() == "components field not found"@
                ==> scene_json_entities(*json) is Some && (exists|k: int|
                0 <= k < scene_json_entities(*json).unwrap().len() && scene_json_entry(
                    #[trigger] scene_json_entities(*json).unwrap()[k],
                ) is None),
            r is Err && (exists|label: Seq<char>|
                r->Err_0.spec_message() == "invalid entity component: "@ + label)
                ==> scene_json_entities(*json) is Some && (exists|k: int, i: int|
                0 <= k < scene_json_entities(*json).unwrap().len() && scene_json_entry(
                    scene_json_entities(*json).unwrap()[k],
                ) is Some && 0 <= i < scene_json_entry(
                    scene_json_entities(*json).unwrap()[k],
                ).unwrap().len() && !resource_registry.spec_has_label(
                    (#[trigger] scene_json_entry(
                        scene_json_entities(*json).unwrap()[k],
                    ).unwrap()[i]).0,
                ) && r->Err_0.spec_message() == "invalid entity component: "@
                    + scene_json_entry(scene_json_entities(*json).unwrap()[k]).unwrap()[i].0),
            r is Err && r->Err_0.spec_message() == "entity id space exhausted"@
                ==> scene_json_entities(*json) is Some && scene_json_entities(
                *json,
            ).unwrap().len() > MAX_INDEX as int,
            r is Err && r->Err_0.spec_message() == "resource storage unavailable"@ ==> ((exists|
                rid: StandardVersionedIndexId,
            |
                (#[trigger] resource_registry.spec_resource(rid)) is Some
                    && resource_registry.spec_resource(rid).unwrap().spec_family()
                    != StorageFamily::SingleValue) || (scene_json_entities(*json) is Some
                && scene_json_entities(*json).unwrap().len() >= MAX_INDEX as int)),
    {
        let mut scene = match Self::new(job_registry, resource_registry) {
            Ok(s) => s,
            Err(e) => {
                proof {
                    lemma_builder_message_distinct(e.spec_message());
                    reveal_strlit("cyclic job dependency");
                    reveal_strlit("no entities found in scene JSON");
                    assert(("cyclic job dependency"@).len() == 21);
                    assert(("no entities found in scene JSON"@).len() == 31);
                    assert(e.spec_message() != "no entities found in scene JSON"@);
                }
                return Err(e);
            },
        };
        let entities_value = match value_field(json, "entities") {
            Some(v) => v,
            None => {
                proof {
                    lemma_builder_message_distinct("no entities found in scene JSON"@);
                }
                return Err(
                    Error::new(
                        String::from_str("no entities found in scene JSON"),
                        scene_location(),
                    ),
                );
            },
        };
        let entities = match value_elements(entities_value) {
            Some(items) => items,
            None => {
                proof {
                    lemma_builder_message_distinct("no entities found in scene JSON"@);
                }
                return Err(
                    Error::new(
                        String::from_str("no entities found in scene JSON"),
                        scene_location(),
                    ),
                );
            },
        };
        let mut doc: Vec<Option<Vec<(String, serde_json::Value)>>> = Vec::new();
        let mut e: usize = 0;
        while e < entities.len()
            invariant
                e <= entities@.len(),
                doc@.len() == e as int,
                forall|k: int|
                    0 <= k < e ==> json_entry_matches(entities@[k], #[trigger] doc@[k]),
            decreases entities@.len() - e,
        {
            let components = match value_field(&entities[e], "components") {
                Some(c) => value_entries(c),
                None => None,
            };
            proof {
                assert(json_entry_matches(entities@[e as int], components));
            }
            doc.push(components);
            e = e + 1;
        }
        let ghost doc_view = doc@;
        let ghost scene_pre_storages = scene.state.spec_storages();
        let applied = scene.state.apply_scene_doc(resource_registry, doc);
        match applied.0 {
            Ok(_) => {
                let result: Result<Self, Error> = Ok(scene);
                proof {
                    let ents = scene_json_entities(*json).unwrap();
                    assert(entities@ == ents);
                    assert forall|k: int|
                        0 <= k < ents.len() implies json_entry_stored(
                        result.unwrap().spec_state(),
                        *resource_registry,
                        #[trigger] ents[k],
                    ) by {
                        let eid = applied.1@[k];
                        let comps = doc_view[k];
                        assert(json_entry_matches(ents[k], comps));
                        assert(result.unwrap().spec_state().spec_entities().spec_contains(eid));
                        assert(entry_applied(
                            result.unwrap().spec_state(),
                            *resource_registry,
                            comps,
                            eid,
                        ));
                    }
                }
                result
            },
            Err(err) => {
                proof {
                    if (exists|order: Seq<StandardVersionedIndexId>|
                        crate::scheduler::registry_topological_order(
                            *job_registry,
                            JobKind::Update,
                            order,
                        )) && scene_json_entities(*json) is Some {
                        let ents = scene_json_entities(*json).unwrap();
                        assert(entities@ == ents);
                        if (forall|rid: StandardVersionedIndexId|
                            (#[trigger] resource_registry.spec_resource(rid)) is Some
                                ==> resource_registry.spec_resource(rid).unwrap().spec_family()
                                == StorageFamily::SingleValue) && ents.len() <= MAX_INDEX as int
                            && (forall|k: int|
                            0 <= k < ents.len() ==> (#[trigger] scene_json_entry(ents[k]))
                                is Some) && (forall|k: int, i: int|
                            0 <= k < ents.len() && 0 <= i < scene_json_entry(
                                ents[k],
                            ).unwrap().len() ==> resource_registry.spec_has_label(
                                (#[trigger] scene_json_entry(ents[k]).unwrap()[i]).0,
                            )) {
                            assert forall|k: int|
                                0 <= k < doc_view.len() implies (#[trigger] doc_view[k]) is Some
                                && (forall|i: int|
                                0 <= i < doc_view[k].unwrap()@.len()
                                    ==> resource_registry.spec_has_label(
                                    (#[trigger] doc_view[k].unwrap()@[i]).0@,
                                )) by {
                                assert(json_entry_matches(ents[k], doc_view[k]));
                                let es = scene_json_entry(ents[k]).unwrap();
                                assert forall|i: int|
                                    0 <= i < doc_view[k].unwrap()@.len() implies resource_registry.spec_has_label(
                                    (#[trigger] doc_view[k].unwrap()@[i]).0@,
                                ) by {
                                    assert(doc_view[k].unwrap()@[i].0@ == es[i].0);
                                }
                            }
                            assert(scene_doc_ok(*resource_registry, doc_view));
                            assert(false);
                        }
                    }
                }
                proof {
                    reveal_strlit("no entities found in scene JSON");
                    reveal_strlit("components field not found");
                    reveal_strlit("invalid entity component: ");
                    reveal_strlit("entity id space exhausted");
                    reveal_strlit("resource storage unavailable");
                    let ents = scene_json_entities(*json).unwrap();
                    assert(entities@ == ents);
                    let invalid_case = exists|k: int, i: int|
                        0 <= k < doc_view.len() && doc_view[k] is Some && 0 <= i
                            < doc_view[k].unwrap()@.len() && !resource_registry.spec_has_label(
                            (#[trigger] doc_view[k].unwrap()@[i]).0@,
                        ) && err.spec_message() == "invalid entity component: "@
                            + doc_view[k].unwrap()@[i].0@;
                    if invalid_case {
                        let (k, i) = choose|k: int, i: int|
                            0 <= k < doc_view.len() && doc_view[k] is Some && 0 <= i
                                < doc_view[k].unwrap()@.len()
                                && !resource_registry.spec_has_label(
                                (#[trigger] doc_view[k].unwrap()@[i]).0@,
                            ) && err.spec_message() == "invalid entity component: "@
                                + doc_view[k].unwrap()@[i].0@;
                        assert(json_entry_matches(ents[k], doc_view[k]));
                        let es = scene_json_entry(ents[k]).unwrap();
                        assert(doc_view[k].unwrap()@[i].0@ == es[i].0);
                        assert(scene_json_entry(ents[k]) is Some && 0 <= i < es.len()
                            && !resource_registry.spec_has_label(es[i].0)
                            && err.spec_message() == "invalid entity component: "@ + es[i].0);
                        assert(err.spec_message()[0] == 'i');
                    }
                    if err.spec_message() == "components field not found"@ {
                        assert(("components field not found"@).len() == 26);
                        assert(("entity id space exhausted"@).len() == 25);
                        assert(("resource storage unavailable"@).len() == 28);
                        assert(("components field not found"@)[0] == 'c');
                        if invalid_case {
                            assert(false);
                        }
                        let k = choose|k: int|
                            0 <= k < doc_view.len() && (#[trigger] doc_view[k]) is None;
                        assert(json_entry_matches(ents[k], doc_view[k]));
                        assert(scene_json_entry(ents[k]) is None);
                    }
                    if err.spec_message() == "entity id space exhausted"@ {
                        assert(("components field not found"@).len() == 26);
                        assert(("entity id space exhausted"@).len() == 25);
                        assert(("resource storage unavailable"@).len() == 28);
                        assert(("entity id space exhausted"@)[0] == 'e');
                        if invalid_case {
                            assert(false);
                        }
                        assert(ents.len() > MAX_INDEX as int);
                    }
                    if err.spec_message() == "resource storage unavailable"@ {
                        assert(("components field not found"@).len() == 26);
                        assert(("entity id space exhausted"@).len() == 25);
                        assert(("resource storage unavailable"@).len() == 28);
                        assert(("resource storage unavailable"@)[0] == 'r');
                        if invalid_case {
                            assert(false);
                        }
                        let rid = choose|rid: StandardVersionedIndexId|
                            (#[trigger] resource_registry.spec_resource(rid)) is Some && (
                            !storage_single_value(scene_pre_storages, rid) || storage_dense(
                                scene_pre_storages,
                                rid,
                            ) + doc_view.len() >= MAX_INDEX as int);
                        if !storage_single_value(scene_pre_storages, rid) {
                            assert(resource_registry.spec_resource(rid).unwrap().spec_family()
                                != StorageFamily::SingleValue);
                        } else {
                            assert(storage_dense(scene_pre_storages, rid) == 0);
                            assert(ents.len() >= MAX_INDEX as int);
                        }
                    }
                    if exists|label: Seq<char>|
                        err.spec_message() == "invalid entity component: "@ + label {
                        let label = choose|label: Seq<char>|
                            err.spec_message() == "invalid entity component: "@ + label;
                        assert(err.spec_message()[0] == ("invalid entity component: "@
                            + label)[0]);
                        assert(err.spec_message()[0] == 'i');
                        assert(("components field not found"@)[0] == 'c');
                        assert(("entity id space exhausted"@)[0] == 'e');
                        assert(("resource storage unavailable"@)[0] == 'r');
                        assert(invalid_case);
                    }
                    if err.spec_message() == "no entities found in scene JSON"@ {
                        assert(("no entities found in scene JSON"@).len() == 31);
                        assert(("components field not found"@).len() == 26);
                        assert(("entity id space exhausted"@).len() == 25);
                        assert(("resource storage unavailable"@).len() == 28);
                        if exists|k: int, i: int|
                            0 <= k < doc_view.len() && doc_view[k] is Some && 0 <= i
                                < doc_view[k].unwrap()@.len()
                                && !resource_registry.spec_has_label(
                                (#[trigger] doc_view[k].unwrap()@[i]).0@,
                            ) && err.spec_message() == "invalid entity component: "@
                                + doc_view[k].unwrap()@[i].0@ {
                            let (k, i) = choose|k: int, i: int|
                                0 <= k < doc_view.len() && doc_view[k] is Some && 0 <= i
                                    < doc_view[k].unwrap()@.len()
                                    && !resource_registry.spec_has_label(
                                    (#[trigger] doc_view[k].unwrap()@[i]).0@,
                                ) && err.spec_message() == "invalid entity component: "@
                                    + doc_view[k].unwrap()@[i].0@;
                            assert(err.spec_message()[0] == ("invalid entity component: "@
                                + doc_view[k].unwrap()@[i].0@)[0]);
                            assert(err.spec_message()[0] == 'i');
                            assert(err.spec_message()[0] == 'n');
                            assert(false);
                        }
                        assert(false);
                    }
                }
                Err(err)
            },
        }
    }
}

} // verus!
