//! Scene building from JSON documents.
use ovis_core::{
    register_resource, resource_id_from_label, Error, JobRegistry, ResourceKind, StorageFamily,
    ResourceRegistry, Scene, SceneState, StandardVersionedIndexId, SystemResources,
};

type JsonJobFn =
    fn(&mut SystemResources, &mut SceneState<serde_json::Value>) -> Result<(), Error>;

#[test]
fn scene_from_json_inserts_components() {
    let jobs = JobRegistry::<JsonJobFn>::new();
    let mut resources = ResourceRegistry::new();
    let rid = register_resource(
        &mut resources,
        ResourceKind::EntityComponent,
        String::from("known_label"),
        StorageFamily::SingleValue,
    );

    let json: serde_json::Value =
        serde_json::from_str("{\"entities\":[{\"components\":{\"known_label\": 5}}]}").unwrap();
    let scene = Scene::<serde_json::Value, JsonJobFn>::from_json(&jobs, &resources, &json)
        .unwrap();

    assert_eq!(scene.state().entity_count(), 1);
    let eid = StandardVersionedIndexId::from_index(0);
    let component = scene.state().component(rid, eid);
    assert!(component.is_some());
    assert_eq!(component.unwrap(), &serde_json::Value::from(5u64));
}

#[test]
fn unknown_component_label_is_a_configuration_error() {
    let jobs = JobRegistry::<JsonJobFn>::new();
    let mut resources = ResourceRegistry::new();
    register_resource(
        &mut resources,
        ResourceKind::EntityComponent,
        String::from("known_label"),
        StorageFamily::SingleValue,
    );

    let json: serde_json::Value =
        serde_json::from_str("{\"entities\":[{\"components\":{\"unknown_label\": 1}}]}")
            .unwrap();
    let result = Scene::<serde_json::Value, JsonJobFn>::from_json(&jobs, &resources, &json);
    assert!(result.is_err());
    let message = String::from(result.err().unwrap().message());
    assert!(message.contains("unknown_label"));
}

#[test]
fn missing_components_field_is_an_error() {
    let jobs = JobRegistry::<JsonJobFn>::new();
    let resources = ResourceRegistry::new();
    let json: serde_json::Value =
        serde_json::from_str("{\"entities\":[{\"name\": \"x\"}]}").unwrap();
    let result = Scene::<serde_json::Value, JsonJobFn>::from_json(&jobs, &resources, &json);
    assert!(result.is_err());
    assert_eq!(result.err().unwrap().message(), "components field not found");
}

#[test]
fn missing_entities_field_is_an_error() {
    let jobs = JobRegistry::<JsonJobFn>::new();
    let resources = ResourceRegistry::new();
    let json: serde_json::Value = serde_json::from_str("{\"scene\": true}").unwrap();
    let result = Scene::<serde_json::Value, JsonJobFn>::from_json(&jobs, &resources, &json);
    assert!(result.is_err());
    assert_eq!(result.err().unwrap().message(), "no entities found in scene JSON");
}

#[test]
fn labels_resolve_to_their_registered_ids() {
    let mut resources = ResourceRegistry::new();
    let first = register_resource(
        &mut resources,
        ResourceKind::EntityComponent,
        String::from("position"),
        StorageFamily::SingleValue,
    );
    let second = register_resource(
        &mut resources,
        ResourceKind::SceneComponent,
        String::from("camera"),
        StorageFamily::SingleValue,
    );
    assert_eq!(resource_id_from_label(&resources, "position"), Some(first));
    assert_eq!(resource_id_from_label(&resources, "camera"), Some(second));
    assert_eq!(resource_id_from_label(&resources, "missing"), None);
    assert_eq!(resources.len(), 2);
}

#[test]
fn slice_resources_are_built_and_hold_slices() {
    let mut resources = ResourceRegistry::new();
    let rid = register_resource(
        &mut resources,
        ResourceKind::EntityComponent,
        String::from("path_points"),
        StorageFamily::Slice,
    );
    let mut state = SceneState::<u32>::new(&resources);
    let eid = state.reserve_entity().unwrap();

    // A slice resource refuses single-value inserts and takes slices.
    assert!(state.insert_component(rid, eid, 7u32).is_none());
    assert!(state.insert_component_slice(rid, eid, vec![1u32, 2, 3]));
    let stored = state.component_slice(rid, eid).unwrap();
    assert_eq!(stored.len(), 3);
    assert_eq!(*stored[0], 1);
    assert_eq!(*stored[2], 3);
    assert!(state.component(rid, eid).is_none());
}
