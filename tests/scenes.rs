use ns_core::commands::{Command, CommandQueue};
use ns_core::markers::{marker_component, Marker};
use ns_core::one_shot_system::SceneError;
use ns_core::scenes::{cleanup_scene, despawn_all, SceneSchedule};
use ns_core::store::ObjectStore;
use ns_core::ui::DevModal;
use ns_core::unity_scenes::{remove_scene_entities, ManagedByScene};

const MENU_STATE: u64 = 1;
const PLAYING: u64 = 2;

/// Spawns a root tagged with `key` and two children under it.
fn spawn_scene(store: &mut ObjectStore, key: &str) -> (usize, usize, usize) {
    let root = store.spawn_scene(&vec![0, 0], key.to_string());
    (root, root + 1, root + 2)
}

/// Plays the host: applies the queue, then runs each requested system.
/// System `h` spawns a scene tagged with `keys[h]`.
fn barrier(store: &mut ObjectStore, queue: &mut CommandQueue<usize>, keys: &[&str]) -> Vec<usize> {
    let to_run = store.apply_commands(queue);
    let mut roots = Vec::new();
    for h in to_run {
        roots.push(spawn_scene(store, keys[h]).0);
    }
    roots
}

fn live_count(store: &ObjectStore) -> usize {
    (0..store.id_bound()).filter(|i| store.contains(*i)).count()
}

#[test]
fn entering_runs_setup_once_per_enter() {
    let mut schedule: SceneSchedule<usize> = SceneSchedule::new();
    schedule.bind_scene("MainMenu".to_string(), 0, MENU_STATE).unwrap();
    let mut queue = CommandQueue::new();
    schedule.on_enter(MENU_STATE, &mut queue);
    assert_eq!(queue.len(), 1);
    schedule.on_enter(MENU_STATE, &mut queue);
    let cmds = queue.take();
    assert_eq!(cmds.len(), 2);
    assert!(cmds.iter().all(|c| matches!(c, Command::RunSystem(0))));
    // Other states run nothing.
    schedule.on_enter(PLAYING, &mut queue);
    assert_eq!(queue.len(), 0);
}

#[test]
fn exiting_removes_every_tagged_root_and_descendants() {
    let mut schedule: SceneSchedule<usize> = SceneSchedule::new();
    schedule.bind_scene("MainMenu".to_string(), 0, MENU_STATE).unwrap();
    let mut store = ObjectStore::new();
    let mut queue = CommandQueue::new();
    // Entered twice without an exit: two scene roots.
    schedule.on_enter(MENU_STATE, &mut queue);
    schedule.on_enter(MENU_STATE, &mut queue);
    let roots = barrier(&mut store, &mut queue, &["MainMenu"]);
    assert_eq!(roots.len(), 2);
    let deep = store.spawn_child(roots[0] + 1).unwrap();
    let deeper = store.spawn_child(deep).unwrap();
    assert_eq!(live_count(&store), 8);
    schedule.on_exit(MENU_STATE, &store, &mut queue);
    assert_eq!(queue.len(), 2);
    barrier(&mut store, &mut queue, &[]);
    assert_eq!(store.tagged(&"MainMenu".to_string()), Vec::<usize>::new());
    assert!(!store.contains(deeper));
    assert_eq!(live_count(&store), 0);
}

#[test]
fn exiting_without_scene_is_a_no_op() {
    let mut schedule: SceneSchedule<usize> = SceneSchedule::new();
    schedule.bind_scene("MainMenu".to_string(), 0, MENU_STATE).unwrap();
    let mut store = ObjectStore::new();
    let bystander = store.spawn();
    let mut queue = CommandQueue::new();
    schedule.on_exit(MENU_STATE, &store, &mut queue);
    assert_eq!(queue.len(), 0);
    assert_eq!(store.apply_commands(&mut queue), Vec::<usize>::new());
    assert!(store.contains(bystander));
    assert_eq!(live_count(&store), 1);
}

#[test]
fn enter_exit_enter_rebuilds_the_same_scene() {
    let mut schedule: SceneSchedule<usize> = SceneSchedule::new();
    schedule.bind_scene("MainMenu".to_string(), 0, MENU_STATE).unwrap();
    let mut store = ObjectStore::new();
    let keep = store.spawn();
    let mut queue = CommandQueue::new();

    schedule.on_enter(MENU_STATE, &mut queue);
    let first = barrier(&mut store, &mut queue, &["MainMenu"]);
    let first_tagged = store.tagged(&"MainMenu".to_string()).len();
    let first_live = live_count(&store);

    schedule.on_exit(MENU_STATE, &store, &mut queue);
    barrier(&mut store, &mut queue, &["MainMenu"]);
    assert_eq!(live_count(&store), 1);
    assert!(store.contains(keep));

    schedule.on_enter(MENU_STATE, &mut queue);
    let second = barrier(&mut store, &mut queue, &["MainMenu"]);
    assert_eq!(first.len(), 1);
    assert_eq!(second.len(), 1);
    assert_eq!(store.tagged(&"MainMenu".to_string()).len(), first_tagged);
    assert_eq!(first_tagged, 1);
    assert_eq!(live_count(&store), first_live);
    let children = (0..store.id_bound())
        .filter(|i| store.parent(*i) == Some(second[0]))
        .count();
    assert_eq!(children, 2);
}

#[test]
fn main_menu_scenario() {
    let mut schedule: SceneSchedule<usize> = SceneSchedule::new();
    assert_eq!(schedule.bind_scene("MainMenu".to_string(), 0, MENU_STATE), Ok(()));
    let mut store = ObjectStore::new();
    let mut queue = CommandQueue::new();
    schedule.on_enter(MENU_STATE, &mut queue);
    let roots = barrier(&mut store, &mut queue, &["MainMenu"]);
    assert_eq!(roots.len(), 1);
    let r = roots[0];
    let children: Vec<usize> = (0..store.id_bound())
        .filter(|i| store.parent(*i) == Some(r))
        .collect();
    assert_eq!(children.len(), 2);
    let (a, b) = (children[0], children[1]);
    assert!(store.has_marker(r, &"MainMenu".to_string()));
    schedule.on_exit(MENU_STATE, &store, &mut queue);
    barrier(&mut store, &mut queue, &[]);
    assert!(!store.contains(r));
    assert!(!store.contains(a));
    assert!(!store.contains(b));
}

#[test]
fn two_scenes_in_one_state() {
    let mut schedule: SceneSchedule<usize> = SceneSchedule::new();
    schedule.bind_scene("MenuScene".to_string(), 0, PLAYING).unwrap();
    schedule.bind_scene("HudOverlay".to_string(), 1, PLAYING).unwrap();
    let mut store = ObjectStore::new();
    let mut queue = CommandQueue::new();
    schedule.on_enter(PLAYING, &mut queue);
    let roots = barrier(&mut store, &mut queue, &["MenuScene", "HudOverlay"]);
    assert_eq!(roots.len(), 2);
    assert!(store.has_marker(roots[0], &"MenuScene".to_string()));
    assert!(store.has_marker(roots[1], &"HudOverlay".to_string()));

    // Removing one scene leaves the other in place.
    cleanup_scene(&store, &"MenuScene".to_string(), &mut queue);
    barrier(&mut store, &mut queue, &[]);
    assert!(!store.contains(roots[0]));
    assert!(store.contains(roots[1]));
    assert_eq!(live_count(&store), 3);

    schedule.on_exit(PLAYING, &store, &mut queue);
    barrier(&mut store, &mut queue, &[]);
    assert!(!store.contains(roots[1]));
    assert_eq!(live_count(&store), 0);
}

#[test]
fn binding_a_key_twice_is_refused() {
    let mut schedule: SceneSchedule<usize> = SceneSchedule::new();
    schedule.bind_scene("MainMenu".to_string(), 0, MENU_STATE).unwrap();
    assert_eq!(
        schedule.bind_scene("MainMenu".to_string(), 1, PLAYING),
        Err(SceneError::DuplicateRegistration)
    );
    let mut queue = CommandQueue::new();
    schedule.on_enter(PLAYING, &mut queue);
    assert_eq!(queue.len(), 0);
    assert_eq!(schedule.systems().get(&"MainMenu".to_string()), Some(0));
}

#[test]
fn add_scene_uses_the_marker_key() {
    let mut schedule: SceneSchedule<usize> = SceneSchedule::new();
    assert_eq!(schedule.add_scene(marker_component::<DevModal>(), 3, MENU_STATE), Ok(()));
    assert_eq!(
        schedule.register_one_shot_system(marker_component::<DevModal>(), 4),
        Err(SceneError::DuplicateRegistration)
    );
    let mut queue = CommandQueue::new();
    assert_eq!(schedule.run(&DevModal::type_path(), &mut queue), Ok(()));
    assert_eq!(
        schedule.run(&"Missing".to_string(), &mut queue),
        Err(SceneError::NotRegistered)
    );
    schedule.on_enter(MENU_STATE, &mut queue);
    let cmds = queue.take();
    assert_eq!(cmds.len(), 2);
    assert!(cmds.iter().all(|c| matches!(c, Command::RunSystem(3))));
}

#[test]
fn remove_scene_entities_changes_nothing() {
    let mut store = ObjectStore::new();
    let managed = store.spawn();
    store.insert_marker(managed, ManagedByScene::type_path());
    remove_scene_entities();
    assert!(store.contains(managed));
    assert_eq!(store.tagged(&ManagedByScene::type_path()), vec![managed]);
}

#[test]
fn despawn_all_queues_in_order() {
    let mut queue: CommandQueue<usize> = CommandQueue::new();
    despawn_all(&vec![4, 2], &mut queue);
    let cmds = queue.take();
    assert!(matches!(cmds[0], Command::DespawnRecursive(4)));
    assert!(matches!(cmds[1], Command::DespawnRecursive(2)));
}
