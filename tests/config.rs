use tracey::config::{sample_scene, scene_from_args, ConfigError, SceneChoice, SAMPLE_SCENE_COUNT};
use tracey::materials::DefaultMaterial;

#[test]
fn both_selectors_conflict() {
    let r = scene_from_args(Some("a.obj".to_string()), Some(1));
    assert!(matches!(r, Err(ConfigError::ConflictingSelectors)));
}

#[test]
fn no_selector_is_missing() {
    let r = scene_from_args(None, None);
    assert!(matches!(r, Err(ConfigError::MissingSelector)));
}

#[test]
fn mesh_path_selects_mesh_scene() {
    match scene_from_args(Some("meshes/teapot.obj".to_string()), None) {
        Ok(SceneChoice::Mesh(p)) => assert_eq!(p, "meshes/teapot.obj"),
        _ => panic!("expected the mesh scene"),
    }
}

#[test]
fn sample_numbers_select_built_in_scenes() {
    assert!(matches!(scene_from_args(None, Some(0)), Ok(SceneChoice::CornellBoxObjects)));
    assert!(matches!(scene_from_args(None, Some(1)), Ok(SceneChoice::CornellBoxShowcase)));
    assert!(matches!(scene_from_args(None, Some(2)), Ok(SceneChoice::RandomSpheres)));
}

#[test]
fn unknown_sample_number_is_rejected() {
    let r = scene_from_args(None, Some(3));
    assert!(matches!(r, Err(ConfigError::UnknownSampleScene(3))));
    let r = scene_from_args(None, Some(u32::MAX));
    assert!(matches!(r, Err(ConfigError::UnknownSampleScene(u32::MAX))));
}

#[test]
fn sample_scene_count_matches_lookup() {
    for n in 0..SAMPLE_SCENE_COUNT {
        assert!(sample_scene(n).is_some());
    }
    assert!(sample_scene(SAMPLE_SCENE_COUNT).is_none());
}

#[test]
fn default_material_builds() {
    let _m: DefaultMaterial = DefaultMaterial::default();
}
