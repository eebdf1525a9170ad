//! Job registration.
//!
//! A job is a function run by the scheduler once per frame or once per
//! viewport per frame, with declared predecessors and resource access.  The
//! job-function type is a type parameter throughout, so a host can register
//! plain function pointers or any other callables of one shared type.
use vstd::prelude::*;

verus! {

use crate::id_storage::IdMap;
use crate::versioned_index_id::{StandardVersionedIndexId, MAX_INDEX};

/// When a job runs: once at scene setup, or on every frame.
#[derive(Debug, Copy, Clone, PartialEq, Eq, Structural)]
pub enum JobKind {
    Setup,
    Update,
}

/// A job's declared access to one resource.
#[derive(Debug, Copy, Clone, PartialEq, Eq, Structural)]
pub enum ResourceAccess {
    Read(StandardVersionedIndexId),
    Write(StandardVersionedIndexId),
    ReadWrite(StandardVersionedIndexId),
}

/// A registered job: its kind, its function, its predecessors, its declared
/// resource access, and whether it fans out over viewports.
pub struct Job<F> {
    kind: JobKind,
    function: F,
    dependencies: Vec<StandardVersionedIndexId>,
    resource_access: Vec<ResourceAccess>,
    executed_per_viewport: bool,
}

impl<F> Job<F> {
    /// The job's kind.
    pub closed spec fn spec_kind(self) -> JobKind {
        self.kind
    }

    /// The job's function.
    pub closed spec fn spec_function(self) -> F {
        self.function
    }

    /// The declared predecessors, in registration order, each at most once.
    pub closed spec fn spec_dependencies(self) -> Seq<StandardVersionedIndexId> {
        self.dependencies@
    }

    /// The declared resource access list.
    pub closed spec fn spec_resource_access(self) -> Seq<ResourceAccess> {
        self.resource_access@
    }

    /// Whether the job runs once per viewport rather than once per frame.
    pub closed spec fn spec_per_viewport(self) -> bool {
        self.executed_per_viewport
    }

    /// Structural invariant: no predecessor is listed twice.
    pub closed spec fn wf(self) -> bool {
        self.dependencies@.no_duplicates()
    }

    /// A job with no predecessors yet.
    pub fn new(
        kind: JobKind,
        function: F,
        executed_per_viewport: bool,
        resource_access: Vec<ResourceAccess>,
    ) -> (r: Self)
        ensures
            r.wf(),
            r.spec_kind() == kind,
            r.spec_function() == function,
            r.spec_dependencies() == Seq::<StandardVersionedIndexId>::empty(),
            r.spec_resource_access() == resource_access@,
            r.spec_per_viewport() == executed_per_viewport,
    {
        Self { kind, function, dependencies: Vec::new(), resource_access, executed_per_viewport }
    }

    /// The declared predecessors.
    pub fn dependencies(&self) -> (r: &Vec<StandardVersionedIndexId>)
        ensures
            r@ == self.spec_dependencies(),
            self.wf() ==> r@.no_duplicates(),
    {
        &self.dependencies
    }

    /// Records a predecessor, once; repeating it changes nothing.
    pub fn add_dependency(&mut self, dependency: StandardVersionedIndexId)
        requires
            old(self).wf(),
        ensures
            final(self).wf(),
            final(self).spec_dependencies() == (if old(self).spec_dependencies().contains(
                dependency,
            ) {
                old(self).spec_dependencies()
            } else {
                old(self).spec_dependencies().push(dependency)
            }),
            final(self).spec_kind() == old(self).spec_kind(),
            final(self).spec_function() == old(self).spec_function(),
            final(self).spec_resource_access() == old(self).spec_resource_access(),
            final(self).spec_per_viewport() == old(self).spec_per_viewport(),
    {
        let mut i: usize = 0;
        while i < self.dependencies.len()
            invariant
                old(self).wf(),
                *self == *old(self),
                i <= self.dependencies@.len(),
                forall|k: int| 0 <= k < i ==> self.dependencies@[k] != dependency,
            decreases self.dependencies@.len() - i,
        {
            if self.dependencies[i] == dependency {
                proof {
                    assert(self.dependencies@.contains(dependency));
                }
                return ;
            }
            i = i + 1;
        }
        proof {
            if self.dependencies@.contains(dependency) {
                let k = choose|k: int|
                    0 <= k < self.dependencies@.len() && self.dependencies@[k] == dependency;
            }
        }
        self.dependencies.push(dependency);
    }

    /// The job's function.
    pub fn function(&self) -> (r: &F)
        ensures
            *r == self.spec_function(),
    {
        &self.function
    }

    /// The job's kind.
    pub fn kind(&self) -> (r: JobKind)
        ensures
            r == self.spec_kind(),
    {
        self.kind
    }

    /// The declared resource access list.
    pub fn resource_access(&self) -> (r: &Vec<ResourceAccess>)
        ensures
            r@ == self.spec_resource_access(),
    {
        &self.resource_access
    }

    /// Whether the job runs once per viewport.
    pub fn executed_per_viewport(&self) -> (r: bool)
        ensures
            r == self.spec_per_viewport(),
    {
        self.executed_per_viewport
    }
}

/// The set of registered jobs, addressed by job id.  An explicit value a
/// host threads through scene construction.
pub struct JobRegistry<F> {
    jobs: IdMap<Job<F>>,
}

impl<F> JobRegistry<F> {
    /// The registered job under this id, if any.
    pub closed spec fn spec_job(self, id: StandardVersionedIndexId) -> Option<Job<F>> {
        self.jobs.spec_get(id)
    }

    /// Number of job id slots ever issued.
    pub closed spec fn spec_slot_count(self) -> int {
        self.jobs.spec_slot_count()
    }

    /// Number of registered jobs.
    pub closed spec fn spec_len(self) -> int {
        self.jobs.spec_len()
    }

    /// The registered `(id, job)` pairs in slot order.
    pub closed spec fn spec_live_ids(self) -> Seq<StandardVersionedIndexId> {
        self.jobs.spec_live_ids()
    }

    /// Structural invariant: the id map is intact and every job is.
    pub closed spec fn wf(self) -> bool {
        &&& self.jobs.wf()
        &&& forall|id: StandardVersionedIndexId|
            (#[trigger] self.jobs.spec_get(id)) is Some ==> self.jobs.spec_get(id).unwrap().wf()
    }

    /// An empty registry.
    pub fn new() -> (r: Self)
        ensures
            r.wf(),
            r.spec_len() == 0,
            r.spec_slot_count() == 0,
            forall|id: StandardVersionedIndexId| r.spec_job(id) is None,
    {
        Self { jobs: IdMap::new() }
    }

    /// The live listing covers exactly the registered jobs, each once.
    pub proof fn lemma_live_ids_complete(self)
        requires
            self.wf(),
        ensures
            forall|id: StandardVersionedIndexId|
                self.spec_live_ids().contains(id) <==> (#[trigger] self.spec_job(id)) is Some,
            self.spec_live_ids().no_duplicates(),
            forall|i1: int, i2: int|
                0 <= i1 < i2 < self.spec_live_ids().len() ==> self.spec_live_ids()[i1].spec_index()
                    < self.spec_live_ids()[i2].spec_index(),
    {
        self.jobs.lemma_iteration_complete();
        self.jobs.lemma_contains_get_all();
    }

    /// Size bounds that every well-formed registry obeys.
    pub proof fn lemma_bounds(self)
        requires
            self.wf(),
        ensures
            0 <= self.spec_len() <= self.spec_slot_count() <= MAX_INDEX as int,
            self.spec_live_ids().len() <= self.spec_slot_count(),
    {
        self.jobs.lemma_bounds();
    }

    /// The jobs as `(id, job)` pairs in slot order.
    pub fn jobs(&self) -> (r: Vec<(StandardVersionedIndexId, &Job<F>)>)
        requires
            self.wf(),
        ensures
            r@.len() == self.spec_live_ids().len(),
            forall|k: int|
                0 <= k < r@.len() ==> (#[trigger] r@[k]).0 == self.spec_live_ids()[k]
                    && self.spec_job(r@[k].0) == Some(*r@[k].1) && r@[k].1.wf(),
    {
        let r = self.jobs.iter();
        proof {
            assert forall|k: int| 0 <= k < r@.len() implies (#[trigger] r@[k]).1.wf() by {
                assert(self.jobs.spec_get(r@[k].0) is Some);
            }
        }
        r
    }
}

/// Registers a job and returns its fresh id.
pub fn register_job<F>(
    registry: &mut JobRegistry<F>,
    kind: JobKind,
    function: F,
    executed_per_viewport: bool,
    resource_access: Vec<ResourceAccess>,
) -> (r: StandardVersionedIndexId)
    requires
        old(registry).wf(),
        old(registry).spec_slot_count() < MAX_INDEX as int,
    ensures
        final(registry).wf(),
        old(registry).spec_job(r) is None,
        final(registry).spec_job(r) is Some,
        final(registry).spec_job(r).unwrap().spec_kind() == kind,
        final(registry).spec_job(r).unwrap().spec_function() == function,
        final(registry).spec_job(r).unwrap().spec_dependencies() == Seq::<
            StandardVersionedIndexId,
        >::empty(),
        final(registry).spec_job(r).unwrap().spec_resource_access() == resource_access@,
        final(registry).spec_job(r).unwrap().spec_per_viewport() == executed_per_viewport,
        forall|id: StandardVersionedIndexId|
            id != r ==> final(registry).spec_job(id) == old(registry).spec_job(id),
        final(registry).spec_len() == old(registry).spec_len() + 1,
        final(registry).spec_slot_count() <= old(registry).spec_slot_count() + 1,
{
    let job = Job::new(kind, function, executed_per_viewport, resource_access);
    let id = registry.jobs.insert(job).0;
    proof {
        old(registry).jobs.lemma_contains_get(id);
    }
    id
}

/// Records `dependency_id` as a predecessor of `job_id`.  Nothing changes
/// unless both jobs exist and share one kind.
pub fn add_job_dependency<F>(
    registry: &mut JobRegistry<F>,
    job_id: StandardVersionedIndexId,
    dependency_id: StandardVersionedIndexId,
)
    requires
        old(registry).wf(),
    ensures
        final(registry).wf(),
        ({
            let jobs_before = old(registry);
            let matched = jobs_before.spec_job(job_id) is Some && jobs_before.spec_job(
                dependency_id,
            ) is Some && jobs_before.spec_job(job_id).unwrap().spec_kind() == jobs_before.spec_job(
                dependency_id,
            ).unwrap().spec_kind();
            if matched {
                ({
                    let pre = jobs_before.spec_job(job_id).unwrap();
                    let post = final(registry).spec_job(job_id).unwrap();
                    &&& final(registry).spec_job(job_id) is Some
                    &&& post.spec_kind() == pre.spec_kind()
                    &&& post.spec_function() == pre.spec_function()
                    &&& post.spec_resource_access() == pre.spec_resource_access()
                    &&& post.spec_per_viewport() == pre.spec_per_viewport()
                    &&& post.spec_dependencies() == (if pre.spec_dependencies().contains(
                        dependency_id,
                    ) {
                        pre.spec_dependencies()
                    } else {
                        pre.spec_dependencies().push(dependency_id)
                    })
                    &&& forall|id: StandardVersionedIndexId|
                        id != job_id ==> final(registry).spec_job(id) == jobs_before.spec_job(id)
                })
            } else {
                forall|id: StandardVersionedIndexId|
                    final(registry).spec_job(id) == jobs_before.spec_job(id)
            }
        }),
        final(registry).spec_len() == old(registry).spec_len(),
        final(registry).spec_slot_count() == old(registry).spec_slot_count(),
{
    let dependency_kind = match registry.jobs.get(dependency_id) {
        Some(dependency) => dependency.kind(),
        None => {
            return ;
        },
    };
    match registry.jobs.get_mut(job_id) {
        Some(job) => {
            if job.kind() == dependency_kind {
                job.add_dependency(dependency_id);
            }
        },
        None => {},
    }
}

} // verus!
