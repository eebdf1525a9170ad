//! Frame runs: fan-out, ordering, first error, entity requests, cycles.
use ovis_core::{
    add_job_dependency, register_job, register_resource, EntityDescriptor, Error, JobKind,
    JobRegistry, ResourceKind, StorageFamily, ResourceRegistry, Scene, SceneState, SourceLocation,
    StandardVersionedIndexId, SystemResources, Viewport,
};

type JobFn = fn(&mut SystemResources, &mut SceneState<u32>) -> Result<(), Error>;

fn log_resource_id() -> StandardVersionedIndexId {
    StandardVersionedIndexId::from_index(0)
}

fn record_marker(st: &mut SceneState<u32>, marker: u32) {
    let eid = st.reserve_entity().unwrap();
    st.insert_component(log_resource_id(), eid, marker).unwrap();
}

fn job_a(_sr: &mut SystemResources, st: &mut SceneState<u32>) -> Result<(), Error> {
    record_marker(st, 1);
    Ok(())
}

fn job_b(_sr: &mut SystemResources, st: &mut SceneState<u32>) -> Result<(), Error> {
    record_marker(st, 2);
    Ok(())
}

fn job_c(_sr: &mut SystemResources, st: &mut SceneState<u32>) -> Result<(), Error> {
    record_marker(st, 3);
    Ok(())
}

#[test]
fn per_viewport_fan_out_and_frame_ordering() {
    let mut jobs = JobRegistry::<JobFn>::new();
    let mut resources = ResourceRegistry::new();
    register_resource(
        &mut resources,
        ResourceKind::EntityComponent,
        String::from("marker"),
        StorageFamily::SingleValue,
    );
    let a = register_job(&mut jobs, JobKind::Update, job_a as JobFn, true, Vec::new());
    let b = register_job(&mut jobs, JobKind::Update, job_b as JobFn, true, Vec::new());
    let c = register_job(&mut jobs, JobKind::Update, job_c as JobFn, false, Vec::new());
    add_job_dependency(&mut jobs, c, a);
    add_job_dependency(&mut jobs, c, b);

    let mut scene = Scene::<u32, JobFn>::new(&jobs, &resources).unwrap();
    scene.add_viewport(Viewport::new(0, 64, 64)).unwrap();
    scene.add_viewport(Viewport::new(0, 32, 32)).unwrap();

    assert!(scene.tick(0, 0).is_ok());

    // A and B ran once per viewport, C once per frame, and C entered only
    // after every A and B instance had finished: the entities the jobs
    // reserved record the execution order.
    let state = scene.state();
    assert_eq!(state.entity_count(), 5);
    let mut markers = Vec::new();
    for i in 0..5 {
        let eid = StandardVersionedIndexId::from_index(i);
        markers.push(*state.component(log_resource_id(), eid).unwrap());
    }
    assert_eq!(markers.iter().filter(|m| **m == 1).count(), 2);
    assert_eq!(markers.iter().filter(|m| **m == 2).count(), 2);
    assert_eq!(markers.iter().filter(|m| **m == 3).count(), 1);
    assert_eq!(markers[4], 3);
}

fn job_fails_once(_sr: &mut SystemResources, st: &mut SceneState<u32>) -> Result<(), Error> {
    if st.entity_count() == 0 {
        st.reserve_entity().unwrap();
        return Err(Error::new(
            String::from("job x failed"),
            SourceLocation::TextFile { filename: String::from("test"), line: 1 },
        ));
    }
    Ok(())
}

#[test]
fn first_error_wins_and_later_frames_recover() {
    let mut jobs = JobRegistry::<JobFn>::new();
    let resources = ResourceRegistry::new();
    register_job(&mut jobs, JobKind::Update, job_fails_once as JobFn, false, Vec::new());

    let mut scene = Scene::<u32, JobFn>::new(&jobs, &resources).unwrap();
    let first = scene.tick(0, 0);
    assert!(first.is_err());
    assert_eq!(first.unwrap_err().message(), "job x failed");

    let second = scene.tick(0, 0);
    assert!(second.is_ok());
}

fn job_spawns_and_despawns(
    sr: &mut SystemResources,
    _st: &mut SceneState<u32>,
) -> Result<(), Error> {
    sr.spawn_entity(EntityDescriptor::new());
    sr.spawn_entity(EntityDescriptor::new());
    sr.spawn_entity(EntityDescriptor::new());
    sr.despawn_entity(StandardVersionedIndexId::from_index(0));
    Ok(())
}

#[test]
fn entity_requests_are_applied_after_the_frame() {
    let mut jobs = JobRegistry::<JobFn>::new();
    let resources = ResourceRegistry::new();
    register_job(
        &mut jobs,
        JobKind::Update,
        job_spawns_and_despawns as JobFn,
        false,
        Vec::new(),
    );

    let mut scene = Scene::<u32, JobFn>::new(&jobs, &resources).unwrap();
    let seeded = scene.state_mut().reserve_entity().unwrap();
    assert_eq!(seeded, StandardVersionedIndexId::from_index(0));
    assert_eq!(scene.state().entity_count(), 1);

    assert!(scene.tick(0, 0).is_ok());

    assert_eq!(scene.state().entity_count(), 3);
    assert!(!scene.state().entities().contains(seeded));
}

fn job_noop(_sr: &mut SystemResources, _st: &mut SceneState<u32>) -> Result<(), Error> {
    Ok(())
}

#[test]
fn cyclic_job_dependencies_are_rejected() {
    let mut jobs = JobRegistry::<JobFn>::new();
    let resources = ResourceRegistry::new();
    let a = register_job(&mut jobs, JobKind::Update, job_noop as JobFn, false, Vec::new());
    let b = register_job(&mut jobs, JobKind::Update, job_noop as JobFn, false, Vec::new());
    add_job_dependency(&mut jobs, a, b);
    add_job_dependency(&mut jobs, b, a);

    let scene = Scene::<u32, JobFn>::new(&jobs, &resources);
    assert!(scene.is_err());
    assert_eq!(scene.err().unwrap().message(), "cyclic job dependency");
}

#[test]
fn dependencies_of_mixed_kinds_are_ignored() {
    let mut jobs = JobRegistry::<JobFn>::new();
    let a = register_job(&mut jobs, JobKind::Update, job_noop as JobFn, false, Vec::new());
    let b = register_job(&mut jobs, JobKind::Setup, job_noop as JobFn, false, Vec::new());
    add_job_dependency(&mut jobs, a, b);
    let pairs = jobs.jobs();
    for (id, job) in &pairs {
        if *id == a {
            assert_eq!(job.dependencies().len(), 0);
        }
    }
}

#[test]
fn self_dependency_is_a_cycle() {
    let mut jobs = JobRegistry::<JobFn>::new();
    let resources = ResourceRegistry::new();
    let a = register_job(&mut jobs, JobKind::Update, job_noop as JobFn, false, Vec::new());
    add_job_dependency(&mut jobs, a, a);

    let scene = Scene::<u32, JobFn>::new(&jobs, &resources);
    assert!(scene.is_err());
    assert_eq!(scene.err().unwrap().message(), "cyclic job dependency");
}
