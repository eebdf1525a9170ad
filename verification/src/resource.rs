//! Resource registration and type-erased storage.
//!
//! A resource kind names a typed storage unit; registrations carry a label
//! used by scene documents and say which storage family backs the resource.
//! Storages are held behind a closed tagged enum rather than dynamic
//! dispatch, with the erased component payload as a type parameter.
use vstd::prelude::*;

verus! {

use crate::id_mapped_storage::IdMappedResourceStorage;
use crate::id_mapped_slice_storage::IdMappedResourceSliceStorage;
use crate::id_storage::IdMap;
use crate::versioned_index_id::{StandardVersionedIndexId, MAX_INDEX};

broadcast use StandardVersionedIndexId::lemma_index_bounds;

/// What a resource is attached to.
#[derive(Debug, Copy, Clone, PartialEq, Eq, Structural)]
pub enum ResourceKind {
    Event,
    SceneComponent,
    EntityComponent,
    ViewportComponent,
}

/// Which storage family backs a resource: one value per entity, or a
/// contiguous slice of values per entity.
#[derive(Debug, Copy, Clone, PartialEq, Eq, Structural)]
pub enum StorageFamily {
    SingleValue,
    Slice,
}

/// One registered resource: its kind, the label scene documents use for
/// it, and the storage family its scenes build for it.
pub struct ResourceRegistration {
    kind: ResourceKind,
    label: String,
    family: StorageFamily,
}

impl ResourceRegistration {
    /// The resource's kind.
    pub closed spec fn spec_kind(self) -> ResourceKind {
        self.kind
    }

    /// The label, as a character sequence.
    pub closed spec fn spec_label(self) -> Seq<char> {
        self.label@
    }

    /// The storage family scenes build for this resource.
    pub closed spec fn spec_family(self) -> StorageFamily {
        self.family
    }

    /// Wraps a kind, a label and a storage family.
    pub fn new(kind: ResourceKind, label: String, family: StorageFamily) -> (r: Self)
        ensures
            r.spec_kind() == kind,
            r.spec_label() == label@,
            r.spec_family() == family,
    {
        Self { kind, label, family }
    }

    /// The storage family.
    pub fn family(&self) -> (r: StorageFamily)
        ensures
            r == self.spec_family(),
    {
        self.family
    }

    /// The resource's kind.
    pub fn kind(&self) -> (r: ResourceKind)
        ensures
            r == self.spec_kind(),
    {
        self.kind
    }

    /// The label.
    pub fn label(&self) -> (r: &String)
        ensures
            r@ == self.spec_label(),
    {
        &self.label
    }
}

/// A scene's storage for one resource, over erased component payloads `C`.
/// The set of storage families is closed: one value per entity, or one
/// slice of values per entity.
pub enum ResourceStorage<C> {
    EntityComponent(IdMappedResourceStorage<C>),
    EntityComponentSlice(IdMappedResourceSliceStorage<C>),
}

impl<C> ResourceStorage<C> {
    /// Structural invariant of the backing storage.
    pub open spec fn wf(self) -> bool {
        match self {
            ResourceStorage::EntityComponent(s) => s.wf(),
            ResourceStorage::EntityComponentSlice(s) => s.wf(),
        }
    }
}

/// The set of registered resources, addressed by resource id.  An explicit
/// value a host threads through scene construction.
pub struct ResourceRegistry {
    resources: IdMap<ResourceRegistration>,
}

impl ResourceRegistry {
    /// The registration under this id, if any.
    pub closed spec fn spec_resource(self, id: StandardVersionedIndexId) -> Option<
        ResourceRegistration,
    > {
        self.resources.spec_get(id)
    }

    /// Number of resource id slots ever issued.
    pub closed spec fn spec_slot_count(self) -> int {
        self.resources.spec_slot_count()
    }

    /// Number of registered resources.
    pub closed spec fn spec_len(self) -> int {
        self.resources.spec_len()
    }

    /// The registered ids in slot order.
    pub closed spec fn spec_live_ids(self) -> Seq<StandardVersionedIndexId> {
        self.resources.spec_live_ids()
    }

    /// A label is known when some registered resource carries it.
    pub open spec fn spec_has_label(self, label: Seq<char>) -> bool {
        exists|id: StandardVersionedIndexId|
            (#[trigger] self.spec_resource(id)) is Some && self.spec_resource(
                id,
            ).unwrap().spec_label() == label
    }

    /// Structural invariant of the id map.
    pub closed spec fn wf(self) -> bool {
        self.resources.wf()
    }

    /// An empty registry.
    pub fn new() -> (r: Self)
        ensures
            r.wf(),
            r.spec_len() == 0,
            r.spec_slot_count() == 0,
            forall|id: StandardVersionedIndexId| r.spec_resource(id) is None,
    {
        Self { resources: IdMap::new() }
    }

    /// One registered id per index: two registered resource ids that share
    /// an index are the same id.
    pub proof fn lemma_resource_index_unique(
        self,
        a: StandardVersionedIndexId,
        b: StandardVersionedIndexId,
    )
        requires
            self.wf(),
            self.spec_resource(a) is Some,
            self.spec_resource(b) is Some,
            a.spec_index() == b.spec_index(),
        ensures
            a == b,
    {
        self.resources.lemma_contains_get(a);
        self.resources.lemma_contains_get(b);
        self.resources.lemma_contains_index_unique(a, b);
    }

    /// Number of registered resources.
    pub fn len(&self) -> (r: usize)
        requires
            self.wf(),
        ensures
            r == self.spec_len(),
    {
        self.resources.len()
    }
}

/// Registers a resource under a label and returns its fresh id.
pub fn register_resource(
    registry: &mut ResourceRegistry,
    kind: ResourceKind,
    label: String,
    family: StorageFamily,
) -> (r: StandardVersionedIndexId)
    requires
        old(registry).wf(),
        old(registry).spec_slot_count() < MAX_INDEX as int,
    ensures
        final(registry).wf(),
        old(registry).spec_resource(r) is None,
        final(registry).spec_resource(r) is Some,
        final(registry).spec_resource(r).unwrap().spec_kind() == kind,
        final(registry).spec_resource(r).unwrap().spec_label() == label@,
        final(registry).spec_resource(r).unwrap().spec_family() == family,
        forall|id: StandardVersionedIndexId|
            id != r ==> final(registry).spec_resource(id) == old(registry).spec_resource(id),
        final(registry).spec_len() == old(registry).spec_len() + 1,
        final(registry).spec_slot_count() <= old(registry).spec_slot_count() + 1,
        final(registry).spec_has_label(label@),
{
    let id = registry.resources.insert(ResourceRegistration::new(kind, label, family)).0;
    proof {
        old(registry).resources.lemma_contains_get(id);
        assert(final(registry).spec_resource(id) is Some);
    }
    id
}

/// Looks a label up among the registered resources; returns the first
/// registered id carrying it, or `None` when the label is unknown.
pub fn resource_id_from_label(registry: &ResourceRegistry, label: &str) -> (r: Option<
    StandardVersionedIndexId,
>)
    requires
        registry.wf(),
    ensures
        match r {
            Some(id) => registry.spec_resource(id) is Some && registry.spec_resource(
                id,
            ).unwrap().spec_label() == label@,
            None => !registry.spec_has_label(label@),
        },
{
    let query: String = label.to_owned();
    proof {
        registry.resources.lemma_iteration_complete();
        registry.resources.lemma_contains_get_all();
    }
    let pairs = registry.resources.iter();
    let mut k: usize = 0;
    while k < pairs.len()
        invariant
            registry.wf(),
            pairs@.len() == registry.spec_live_ids().len(),
            forall|j: int|
                0 <= j < pairs@.len() ==> (#[trigger] pairs@[j]).0 == registry.spec_live_ids()[j]
                    && registry.spec_resource(pairs@[j].0) == Some(*pairs@[j].1),
            forall|id: StandardVersionedIndexId|
                registry.spec_live_ids().contains(id) <==> registry.spec_resource(id) is Some,
            query@ == label@,
            k <= pairs@.len(),
            forall|j: int|
                0 <= j < k ==> (#[trigger] pairs@[j]).1.spec_label() != label@,
        decreases pairs@.len() - k,
    {
        let (id, registration) = pairs[k];
        if registration.label().eq(&query) {
            return Some(id);
        }
        k = k + 1;
    }
    proof {
        if registry.spec_has_label(label@) {
            let id = choose|id: StandardVersionedIndexId|
                (#[trigger] registry.spec_resource(id)) is Some && registry.spec_resource(
                    id,
                ).unwrap().spec_label() == label@;
            assert(registry.spec_live_ids().contains(id));
            let j = choose|j: int|
                0 <= j < registry.spec_live_ids().len() && registry.spec_live_ids()[j] == id;
            assert(pairs@[j].0 == id);
            assert(pairs@[j].1.spec_label() == label@);
        }
    }
    None
}

/// Builds one empty storage per registered resource, indexed by the id's
/// index field; unregistered positions stay `None`.
pub fn make_resource_storages<C>(registry: &ResourceRegistry) -> (r: Vec<
    Option<ResourceStorage<C>>,
>)
    requires
        registry.wf(),
    ensures
        forall|id: StandardVersionedIndexId|
            registry.spec_resource(id) is Some ==> 0 <= id.spec_index() < r@.len() && (
            #[trigger] r@[id.spec_index()]) is Some,
        forall|k: int|
            0 <= k < r@.len() && (#[trigger] r@[k]) is Some ==> exists|id: StandardVersionedIndexId|
                registry.spec_resource(id) is Some && id.spec_index() == k,
        r@.len() == (if registry.spec_live_ids().len() == 0 {
            0int
        } else {
            registry.spec_live_ids()[registry.spec_live_ids().len() - 1].spec_index() + 1
        }),
        forall|k: int|
            0 <= k < r@.len() && (#[trigger] r@[k]) is Some ==> r@[k].unwrap().wf()
                && match r@[k].unwrap() {
                ResourceStorage::EntityComponent(s) => s.spec_dense_count() == 0 && forall|p: int|
                    s.spec_get_at(p) is None,
                ResourceStorage::EntityComponentSlice(s) => forall|p: int|
                    s.spec_get_at(p) is None,
            },
        forall|id: StandardVersionedIndexId|
            registry.spec_resource(id) is Some ==> (match r@[id.spec_index()].unwrap() {
                ResourceStorage::EntityComponent(_) => registry.spec_resource(
                    id,
                ).unwrap().spec_family() == StorageFamily::SingleValue,
                ResourceStorage::EntityComponentSlice(_) => registry.spec_resource(
                    id,
                ).unwrap().spec_family() == StorageFamily::Slice,
            }),
{
    proof {
        registry.resources.lemma_iteration_complete();
        registry.resources.lemma_contains_get_all();
    }
    let pairs = registry.resources.iter();
    let mut storages: Vec<Option<ResourceStorage<C>>> = Vec::new();
    let mut k: usize = 0;
    while k < pairs.len()
        invariant
            registry.wf(),
            pairs@.len() == registry.spec_live_ids().len(),
            forall|j: int|
                0 <= j < pairs@.len() ==> (#[trigger] pairs@[j]).0 == registry.spec_live_ids()[j],
            forall|id: StandardVersionedIndexId|
                registry.spec_live_ids().contains(id) <==> registry.spec_resource(id) is Some,
            forall|j1: int, j2: int|
                0 <= j1 < j2 < pairs@.len() ==> (#[trigger] pairs@[j1]).0.spec_index() < (
                #[trigger] pairs@[j2]).0.spec_index(),
            k <= pairs@.len(),
            storages@.len() == (if k == 0 {
                0int
            } else {
                pairs@[k - 1].0.spec_index() + 1
            }),
            forall|j: int|
                0 <= j < k ==> 0 <= (#[trigger] pairs@[j]).0.spec_index() < storages@.len()
                    && storages@[pairs@[j].0.spec_index()] is Some,
            forall|i: int|
                0 <= i < storages@.len() && (#[trigger] storages@[i]) is Some ==> exists|j: int|
                    0 <= j < k && pairs@[j].0.spec_index() == i,
            forall|i: int|
                0 <= i < storages@.len() && (#[trigger] storages@[i]) is Some ==> storages@[i].unwrap().wf() && match storages@[i].unwrap() {
                    ResourceStorage::EntityComponent(s) => s.spec_dense_count() == 0 && forall|
                        p: int,
                    | s.spec_get_at(p) is None,
                    ResourceStorage::EntityComponentSlice(s) => forall|p: int|
                        s.spec_get_at(p) is None,
                },
            forall|j: int|
                0 <= j < k ==> (match storages@[(#[trigger] pairs@[j]).0.spec_index()].unwrap() {
                    ResourceStorage::EntityComponent(_) => pairs@[j].1.spec_family()
                        == StorageFamily::SingleValue,
                    ResourceStorage::EntityComponentSlice(_) => pairs@[j].1.spec_family()
                        == StorageFamily::Slice,
                }),
        decreases pairs@.len() - k,
    {
        let (id, registration) = pairs[k];
        proof {
            id.lemma_fields_in_range();
        }
        let index = id.index();
        while storages.len() < index + 1
            invariant
                index <= MAX_INDEX,
                index as int == pairs@[k as int].0.spec_index(),
                (k as int) < pairs@.len(),
                storages@.len() <= index + 1,
                forall|j: int|
                    0 <= j < k ==> 0 <= (#[trigger] pairs@[j]).0.spec_index() < storages@.len()
                        && storages@[pairs@[j].0.spec_index()] is Some,
                forall|i: int|
                    0 <= i < storages@.len() && (#[trigger] storages@[i]) is Some ==> exists|j: int|
                        0 <= j < k && pairs@[j].0.spec_index() == i,
                forall|i: int|
                    0 <= i < storages@.len() && (#[trigger] storages@[i]) is Some ==> storages@[i].unwrap().wf() && match storages@[i].unwrap() {
                        ResourceStorage::EntityComponent(s) => s.spec_dense_count() == 0 && forall|
                            p: int,
                        | s.spec_get_at(p) is None,
                        ResourceStorage::EntityComponentSlice(s) => forall|p: int|
                            s.spec_get_at(p) is None,
                    },
                forall|j: int|
                    0 <= j < k ==> (match storages@[(#[trigger] pairs@[j]).0.spec_index()].unwrap() {
                        ResourceStorage::EntityComponent(_) => pairs@[j].1.spec_family()
                            == StorageFamily::SingleValue,
                        ResourceStorage::EntityComponentSlice(_) => pairs@[j].1.spec_family()
                            == StorageFamily::Slice,
                    }),
            decreases index + 1 - storages@.len(),
        {
            storages.push(None);
        }
        let built: ResourceStorage<C> = match registration.family() {
            StorageFamily::SingleValue => ResourceStorage::EntityComponent(
                IdMappedResourceStorage::new(id),
            ),
            StorageFamily::Slice => ResourceStorage::EntityComponentSlice(
                IdMappedResourceSliceStorage::new(id),
            ),
        };
        storages[index] = Some(built);
        proof {
            assert(storages@.len() == index + 1);
        }
        k = k + 1;
    }
    proof {
        assert forall|k2: int|
            0 <= k2 < storages@.len() && (#[trigger] storages@[k2]) is Some implies exists|id:
            StandardVersionedIndexId|
            registry.spec_resource(id) is Some && id.spec_index() == k2 by {
            let j = choose|j: int| 0 <= j < k && pairs@[j].0.spec_index() == k2;
            assert(registry.spec_live_ids().contains(registry.spec_live_ids()[j]));
            assert(registry.spec_resource(pairs@[j].0) is Some);
        }
        assert forall|id: StandardVersionedIndexId|
            registry.spec_resource(id) is Some implies 0 <= id.spec_index() < storages@.len()
            && (#[trigger] storages@[id.spec_index()]) is Some by {
            assert(registry.spec_live_ids().contains(id));
            let j = choose|j: int|
                0 <= j < registry.spec_live_ids().len() && registry.spec_live_ids()[j] == id;
            assert(pairs@[j].0 == id);
        }
        assert forall|id: StandardVersionedIndexId|
            registry.spec_resource(id) is Some implies (match storages@[id.spec_index()].unwrap() {
            ResourceStorage::EntityComponent(_) => registry.spec_resource(
                id,
            ).unwrap().spec_family() == StorageFamily::SingleValue,
            ResourceStorage::EntityComponentSlice(_) => registry.spec_resource(
                id,
            ).unwrap().spec_family() == StorageFamily::Slice,
        }) by {
            assert(registry.spec_live_ids().contains(id));
            let j = choose|j: int|
                0 <= j < registry.spec_live_ids().len() && registry.spec_live_ids()[j] == id;
            assert(pairs@[j].0 == id);
            assert(registry.spec_resource(pairs@[j].0) == Some(*pairs@[j].1));
        }
    }
    storages
}

} // verus!
