use vstd::prelude::*;

verus! {

/// The scene that one render invocation is asked to draw.
pub enum SceneChoice {
    /// A mesh file placed inside the Cornell box.
    Mesh(String),
    /// The Cornell box holding its own box objects.
    CornellBoxObjects,
    /// The Cornell box holding several showcase meshes.
    CornellBoxShowcase,
    /// A field of randomly placed small spheres around three large ones.
    RandomSpheres,
}

/// Why a configuration does not name exactly one scene.
#[derive(PartialEq, Eq, Structural, Debug, Clone, Copy)]
pub enum ConfigError {
    /// Both a mesh path and a sample-scene number were given.
    ConflictingSelectors,
    /// Neither a mesh path nor a sample-scene number was given.
    MissingSelector,
    /// The sample-scene number names no built-in scene.
    UnknownSampleScene(u32),
}

/// Number of built-in sample scenes; they are numbered from zero.
pub const SAMPLE_SCENE_COUNT: u32 = 3;

/// The built-in scene with the given number, if there is one.
pub open spec fn sample_scene_spec(n: u32) -> Option<SceneChoice> {
    if n == 0 {
        Some(SceneChoice::CornellBoxObjects)
    } else if n == 1 {
        Some(SceneChoice::CornellBoxShowcase)
    } else if n == 2 {
        Some(SceneChoice::RandomSpheres)
    } else {
        None
    }
}

/// The built-in scene with the given number, if there is one.
pub fn sample_scene(n: u32) -> (r: Option<SceneChoice>)
    ensures
        r == sample_scene_spec(n),
        r.is_some() <==> n < SAMPLE_SCENE_COUNT,
{
    match n {
        0 => Some(SceneChoice::CornellBoxObjects),
        1 => Some(SceneChoice::CornellBoxShowcase),
        2 => Some(SceneChoice::RandomSpheres),
        _ => None,
    }
}

/// Picks the scene from the two mutually exclusive selectors: a mesh path,
/// or the number of a built-in scene. Exactly one of them must be given.
pub fn scene_from_args(mesh_path: Option<String>, sample: Option<u32>) -> (r: Result<
    SceneChoice,
    ConfigError,
>)
    ensures
        mesh_path.is_some() && sample.is_some() ==> r == Err::<SceneChoice, ConfigError>(
            ConfigError::ConflictingSelectors,
        ),
        mesh_path.is_none() && sample.is_none() ==> r == Err::<SceneChoice, ConfigError>(
            ConfigError::MissingSelector,
        ),
        mesh_path.is_some() && sample.is_none() ==> (r matches Ok(SceneChoice::Mesh(p))
            && p@ == mesh_path.unwrap()@),
        mesh_path.is_none() && sample.is_some() ==> r == match sample_scene_spec(sample.unwrap()) {
            Some(c) => Ok::<SceneChoice, ConfigError>(c),
            None => Err(ConfigError::UnknownSampleScene(sample.unwrap())),
        },
{
    match (mesh_path, sample) {
        (Some(_), Some(_)) => Err(ConfigError::ConflictingSelectors),
        (None, None) => Err(ConfigError::MissingSelector),
        (Some(p), None) => Ok(SceneChoice::Mesh(p)),
        (None, Some(n)) => match sample_scene(n) {
            Some(c) => Ok(c),
            None => Err(ConfigError::UnknownSampleScene(n)),
        },
    }
}

} // verus!
