//! UI-wide markers.
use crate::commands::CommandQueue;
use crate::markers::Marker;
use crate::one_shot_system::{invoke_outcome, OneShotSystemIds, SceneError};
use vstd::prelude::*;

verus! {

/// While present, the UI is scaled to the window.
#[derive(Debug, Clone, Copy, Default)]
pub struct ScaleUi;

/// Tags the root of the developer modal.
#[derive(Debug, Clone, Copy)]
pub struct DevModal;

impl Marker for DevModal {
    open spec fn key_spec() -> Seq<char> {
        "ns_core::ui::DevModal"@
    }

    fn type_path() -> (r: String) {
        String::from_str("ns_core::ui::DevModal")
    }
}

/// Reacts to the developer actions: when opening the modal was just asked
/// for and no developer modal is open, queues a run of the system
/// registered under [`DevModal`]'s key. Fails with `NotRegistered`,
/// queueing nothing, when no such system was registered.
pub fn dev_actions<H: Copy>(
    open_pressed: bool,
    modal_open: bool,
    ids: &OneShotSystemIds<H>,
    commands: &mut CommandQueue<H>,
) -> (r: Result<(), SceneError>)
    requires
        ids.wf(),
    ensures
        !open_pressed || modal_open ==> final(commands)@ == old(commands)@ && r == Ok::<
            (),
            SceneError,
        >(()),
        open_pressed && !modal_open ==> (final(commands)@, r) == invoke_outcome(
            ids@,
            old(commands)@,
            DevModal::key_spec(),
        ),
{
    if !open_pressed || modal_open {
        return Ok(());
    }
    ids.run(&DevModal::type_path(), commands)
}

} // verus!
