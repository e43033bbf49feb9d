use ns_core::commands::{Command, CommandQueue};
use ns_core::markers::{marker_component, Marker};
use ns_core::one_shot_system::{OneShotSystemIds, SceneError};
use ns_core::ui::{dev_actions, DevModal};
use ns_core::widgets::{BasicButton, TabContent};

fn runs(queue: &mut CommandQueue<u32>) -> Vec<u32> {
    queue
        .take()
        .into_iter()
        .map(|c| match c {
            Command::RunSystem(h) => h,
            Command::DespawnRecursive(_) => panic!("unexpected despawn"),
        })
        .collect()
}

#[test]
fn register_twice_fails_with_duplicate_registration() {
    let mut ids: OneShotSystemIds<u32> = OneShotSystemIds::new();
    assert_eq!(ids.register("MainMenu".to_string(), 1), Ok(()));
    assert_eq!(
        ids.register("MainMenu".to_string(), 2),
        Err(SceneError::DuplicateRegistration)
    );
    // The first system stays.
    assert_eq!(ids.get(&"MainMenu".to_string()), Some(1));
}

#[test]
fn register_marker_twice_fails() {
    let mut ids: OneShotSystemIds<u32> = OneShotSystemIds::new();
    assert_eq!(ids.register_one_shot_system(marker_component::<DevModal>(), 7), Ok(()));
    assert_eq!(
        ids.register_one_shot_system(marker_component::<DevModal>(), 8),
        Err(SceneError::DuplicateRegistration)
    );
    assert_eq!(ids.get(&DevModal::type_path()), Some(7));
}

#[test]
fn invoke_runs_stored_system_once_per_call() {
    let mut ids: OneShotSystemIds<u32> = OneShotSystemIds::new();
    ids.register("MainMenu".to_string(), 42).unwrap();
    let mut queue = CommandQueue::new();
    assert_eq!(ids.run(&"MainMenu".to_string(), &mut queue), Ok(()));
    assert_eq!(runs(&mut queue), vec![42]);
    assert_eq!(ids.run(&"MainMenu".to_string(), &mut queue), Ok(()));
    assert_eq!(ids.run(&"MainMenu".to_string(), &mut queue), Ok(()));
    assert_eq!(runs(&mut queue), vec![42, 42]);
}

#[test]
fn invoke_unregistered_fails_and_queues_nothing() {
    let mut ids: OneShotSystemIds<u32> = OneShotSystemIds::new();
    ids.register("MainMenu".to_string(), 1).unwrap();
    let mut queue = CommandQueue::new();
    queue.run_system(9);
    assert_eq!(
        ids.run(&"Missing".to_string(), &mut queue),
        Err(SceneError::NotRegistered)
    );
    assert_eq!(queue.len(), 1);
    assert_eq!(runs(&mut queue), vec![9]);
    assert!(ids.contains_key(&"MainMenu".to_string()));
    assert!(!ids.contains_key(&"Missing".to_string()));
}

#[test]
fn empty_registry_has_nothing() {
    let ids: OneShotSystemIds<u32> = OneShotSystemIds::new();
    assert_eq!(ids.get(&"".to_string()), None);
}

#[test]
fn distinct_markers_get_distinct_stable_keys() {
    assert_eq!(DevModal::type_path(), DevModal::type_path());
    assert_eq!(marker_component::<DevModal>().key(), DevModal::type_path());
    assert_ne!(BasicButton::type_path(), TabContent::type_path());
    assert_ne!(DevModal::type_path(), BasicButton::type_path());
    assert_eq!(DevModal::type_path(), "ns_core::ui::DevModal");
}

#[test]
fn keys_of_several_markers_resolve_independently() {
    let mut ids: OneShotSystemIds<u32> = OneShotSystemIds::new();
    ids.register_one_shot_system(marker_component::<BasicButton>(), 1).unwrap();
    ids.register_one_shot_system(marker_component::<TabContent>(), 2).unwrap();
    assert_eq!(ids.get(&BasicButton::type_path()), Some(1));
    assert_eq!(ids.get(&TabContent::type_path()), Some(2));
    assert_eq!(ids.get(&DevModal::type_path()), None);
}

#[test]
fn dev_actions_opens_registered_modal_once() {
    let mut ids: OneShotSystemIds<u32> = OneShotSystemIds::new();
    let mut queue = CommandQueue::new();
    // Not registered yet: the request fails and queues nothing.
    assert_eq!(
        dev_actions(true, false, &ids, &mut queue),
        Err(SceneError::NotRegistered)
    );
    assert_eq!(queue.len(), 0);
    ids.register_one_shot_system(marker_component::<DevModal>(), 5).unwrap();
    assert_eq!(dev_actions(false, false, &ids, &mut queue), Ok(()));
    assert_eq!(dev_actions(true, true, &ids, &mut queue), Ok(()));
    assert_eq!(queue.len(), 0);
    assert_eq!(dev_actions(true, false, &ids, &mut queue), Ok(()));
    assert_eq!(runs(&mut queue), vec![5]);
}
