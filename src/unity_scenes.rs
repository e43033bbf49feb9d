//! Objects that belong to whatever scene is active. Removing them as a
//! group is not wired up yet.
use crate::markers::Marker;
use vstd::prelude::*;

verus! {

/// Tags an object as owned by the active scene.
#[derive(Debug, Clone, Copy)]
pub struct ManagedByScene;

impl Marker for ManagedByScene {
    open spec fn key_spec() -> Seq<char> {
        "ns_core::unity_scenes::ManagedByScene"@
    }

    fn type_path() -> (r: String) {
        String::from_str("ns_core::unity_scenes::ManagedByScene")
    }
}

/// The hook for removing the objects of a left scene. It does nothing yet:
/// no object, registry or queue is touched.
pub fn remove_scene_entities() {
}

} // verus!
