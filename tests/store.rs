use ns_core::commands::CommandQueue;
use ns_core::store::ObjectStore;

#[test]
fn spawn_hands_out_increasing_ids() {
    let mut store = ObjectStore::new();
    assert_eq!(store.id_bound(), 0);
    let a = store.spawn();
    let b = store.spawn();
    assert_eq!((a, b), (0, 1));
    assert!(store.contains(a) && store.contains(b));
    assert!(!store.contains(2));
    assert_eq!(store.parent(a), None);
}

#[test]
fn spawn_child_needs_live_parent() {
    let mut store = ObjectStore::new();
    let root = store.spawn();
    let child = store.spawn_child(root).unwrap();
    assert_eq!(store.parent(child), Some(root));
    assert_eq!(store.spawn_child(17), None);
    assert_eq!(store.id_bound(), 2);
}

#[test]
fn insert_marker_tags_once() {
    let mut store = ObjectStore::new();
    let a = store.spawn();
    let key = "Hud".to_string();
    assert!(store.insert_marker(a, key.clone()));
    assert!(store.insert_marker(a, key.clone()));
    assert!(store.has_marker(a, &key));
    assert_eq!(store.tagged(&key), vec![a]);
    assert!(!store.insert_marker(5, key.clone()));
    assert!(!store.has_marker(5, &key));
}

#[test]
fn tagged_lists_ids_in_order() {
    let mut store = ObjectStore::new();
    let key = "Menu".to_string();
    let a = store.spawn();
    let b = store.spawn();
    let c = store.spawn();
    store.insert_marker(c, key.clone());
    store.insert_marker(a, key.clone());
    store.insert_marker(b, "Other".to_string());
    assert_eq!(store.tagged(&key), vec![a, c]);
}

#[test]
fn despawn_recursive_removes_whole_subtree_only() {
    let mut store = ObjectStore::new();
    let root = store.spawn();
    let a = store.spawn_child(root).unwrap();
    let other = store.spawn();
    let b = store.spawn_child(a).unwrap();
    let c = store.spawn_child(other).unwrap();
    store.despawn_recursive(a);
    assert!(store.contains(root));
    assert!(!store.contains(a));
    assert!(!store.contains(b));
    assert!(store.contains(other));
    assert!(store.contains(c));
}

#[test]
fn despawn_of_dead_object_changes_nothing() {
    let mut store = ObjectStore::new();
    let root = store.spawn();
    store.despawn_recursive(root);
    store.despawn_recursive(root);
    store.despawn_recursive(99);
    assert!(!store.contains(root));
    assert_eq!(store.id_bound(), 1);
}

#[test]
fn commands_apply_at_the_barrier_in_order() {
    let mut store = ObjectStore::new();
    let root = store.spawn();
    let child = store.spawn_child(root).unwrap();
    let mut queue: CommandQueue<u32> = CommandQueue::new();
    queue.run_system(3);
    queue.despawn_recursive(root);
    queue.run_system(4);
    // Nothing happens before the barrier.
    assert!(store.contains(root) && store.contains(child));
    let to_run = store.apply_commands(&mut queue);
    assert_eq!(to_run, vec![3, 4]);
    assert!(!store.contains(root) && !store.contains(child));
    assert_eq!(queue.len(), 0);
}

#[test]
fn spawn_scene_builds_the_given_shape() {
    let mut store = ObjectStore::new();
    let before = store.spawn();
    let key = "Menu".to_string();
    // Root, two children of the root, and a grandchild under the second.
    let root = store.spawn_scene(&vec![0, 0, 2], key.clone());
    assert_eq!(root, 1);
    assert_eq!(store.id_bound(), 5);
    assert_eq!(store.tagged(&key), vec![root]);
    assert_eq!(store.parent(root), None);
    assert_eq!(store.parent(2), Some(root));
    assert_eq!(store.parent(3), Some(root));
    assert_eq!(store.parent(4), Some(3));
    assert!(!store.has_marker(4, &key));
    store.despawn_recursive(root);
    assert!(store.contains(before));
    assert!((1..5).all(|i| !store.contains(i)));
}
