use sindri::scene::{Scene, SceneError};

#[test]
fn spawn_assigns_ids_from_zero() {
    let mut scene: Scene<u8> = Scene::new("Level");
    assert_eq!(scene.name(), "Level");
    let a = scene.spawn("a");
    let b = scene.spawn_staged("b", true);
    assert_eq!((a, b), (0, 1));
    let ea = scene.entity(a).unwrap();
    assert_eq!(ea.name, "a");
    assert!(ea.active);
    assert!(!ea.staged);
    assert!(ea.children.is_empty() && ea.components.is_empty() && ea.parent.is_none());
    assert!(scene.entity(b).unwrap().staged);
    assert!(scene.entity(7).is_none());
}

#[test]
fn set_parent_links_both_ways_once() {
    let mut scene: Scene<u8> = Scene::new("s");
    let p = scene.spawn("p");
    let c = scene.spawn("c");
    scene.set_parent(c, p);
    scene.set_parent(c, p);
    assert_eq!(scene.entity(c).unwrap().parent, Some(p));
    assert_eq!(scene.entity(p).unwrap().children, vec![c]);
    // A missing parent still gets recorded on the child.
    scene.set_parent(c, 42);
    assert_eq!(scene.entity(c).unwrap().parent, Some(42));
}

#[test]
fn add_component_appends() {
    let mut scene: Scene<u8> = Scene::new("s");
    let e = scene.spawn("e");
    scene.add_component(e, 1);
    scene.add_component(e, 2);
    scene.add_component(99, 3);
    assert_eq!(scene.entity(e).unwrap().components, vec![1, 2]);
}

#[test]
fn remove_entity_unlinks_parent_and_children() {
    let mut scene: Scene<u8> = Scene::new("s");
    let root = scene.spawn("root");
    let mid = scene.spawn("mid");
    let leaf = scene.spawn("leaf");
    scene.set_parent(mid, root);
    scene.set_parent(leaf, mid);
    scene.remove_entity(mid);
    assert!(scene.entity(mid).is_none());
    assert!(scene.entity(root).unwrap().children.is_empty());
    assert_eq!(scene.entity(leaf).unwrap().parent, None);
    scene.remove_entity(mid);
    assert!(scene.entity(root).is_some());
}

#[test]
fn editing_operations() {
    let mut scene: Scene<u8> = Scene::new("s");
    let root = scene.create_entity("root", false, None);
    let a = scene.create_entity("a", true, Some(root));
    let b = scene.create_entity("b", true, Some(root));
    assert_eq!(scene.entity(a).unwrap().parent, Some(root));
    assert_eq!(scene.entity(root).unwrap().children, vec![a, b]);

    assert!(scene.rename_entity(a, "renamed".to_string()));
    assert!(!scene.rename_entity(99, "x".to_string()));
    assert_eq!(scene.entity(a).unwrap().name, "renamed");

    assert!(scene.set_entity_staged(root, true));
    assert!(!scene.set_entity_staged(99, true));
    scene.commit_staged(&[root, a, 99]);
    assert!(!scene.entity(root).unwrap().staged);
    assert!(!scene.entity(a).unwrap().staged);
    assert!(scene.entity(b).unwrap().staged);

    scene.add_component(a, 7);
    scene.add_component(a, 8);
    assert_eq!(scene.remove_component_by_idx(a, 5), Err(SceneError::ComponentIndexOutOfRange));
    assert_eq!(scene.remove_component_by_idx(99, 0), Err(SceneError::EntityNotFound));
    assert_eq!(scene.remove_component_by_idx(a, 0), Ok(()));
    assert_eq!(scene.entity(a).unwrap().components, vec![8]);

    scene.revert_staged(&[b]);
    assert!(scene.entity(b).is_none());
    assert_eq!(scene.entity(root).unwrap().children, vec![a]);
    assert!(scene.delete_entity(a));
    assert!(!scene.delete_entity(a));
    assert!(scene.entity(root).unwrap().children.is_empty());
}

#[test]
fn remove_components_of_a_kind() {
    let mut scene: Scene<(&str, u8)> = Scene::new("s");
    let a = scene.create_entity("a", false, None);
    scene.add_component(a, ("Sprite", 1));
    scene.add_component(a, ("Script", 2));
    scene.add_component(a, ("Sprite", 3));
    assert_eq!(scene.remove_components_where(99, |c: &(&str, u8)| c.0 == "Sprite"), Err(SceneError::EntityNotFound));
    assert_eq!(scene.remove_components_where(a, |c: &(&str, u8)| c.0 == "Camera"), Err(SceneError::ComponentNotFound));
    assert_eq!(scene.entity(a).unwrap().components.len(), 3);
    assert_eq!(scene.remove_components_where(a, |c: &(&str, u8)| c.0 == "Sprite"), Ok(()));
    assert_eq!(scene.entity(a).unwrap().components, vec![("Script", 2)]);
    assert_eq!(scene.entity(a).unwrap().name, "a");
}
