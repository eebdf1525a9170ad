//! Core of a small entity-component-system runtime: versioned index ids,
//! generational id storages and maps, sparse component stores, registries
//! for resources and jobs, a dependency-scheduled job executor, and the
//! scene state that ties them together.
pub mod id_mapped_slice_storage;
pub mod id_mapped_storage;
pub mod id_storage;
pub mod job;
pub mod json;
pub mod resource;
pub mod result;
pub mod scene;
pub mod scheduler;
pub mod versioned_index_id;

pub use id_mapped_slice_storage::IdMappedResourceSliceStorage;
pub use id_mapped_storage::IdMappedResourceStorage;
pub use id_storage::id_filter;
pub use id_storage::IdMap;
pub use id_storage::IdStorage;
pub use id_storage::SimpleStorage;
pub use job::add_job_dependency;
pub use job::register_job;
pub use job::Job;
pub use job::JobKind;
pub use job::JobRegistry;
pub use job::ResourceAccess;
pub use resource::make_resource_storages;
pub use resource::register_resource;
pub use resource::resource_id_from_label;
pub use resource::ResourceKind;
pub use resource::ResourceRegistration;
pub use resource::ResourceRegistry;
pub use resource::ResourceStorage;
pub use resource::StorageFamily;
pub use result::Error;
pub use result::SourceLocation;
pub use scene::EntityDescriptor;
pub use scene::EntityId;
pub use scene::Scene;
pub use scene::SceneState;
pub use scene::Viewport;
pub use scene::ViewportId;
pub use scheduler::Scheduler;
pub use scheduler::SystemResources;
pub use versioned_index_id::StandardVersionedIndexId;
pub use versioned_index_id::VersionedIndexId;
