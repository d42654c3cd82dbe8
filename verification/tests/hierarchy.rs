use sindri::entities::{EntityComponent, Name, Parented, Transform, TRANSFORM_KIND};
use sindri::hierarchy::{get_children, get_parent, get_root, reparent, set_parent, spatial_chain};
use sindri::world::World;

type T = Transform<(i32, i32)>;

#[test]
fn set_and_get_parent() {
    let mut world: World<T> = World::new();
    let a = world.spawn();
    let b = world.spawn();
    world.insert(b, Transform::new((1, 1)));
    assert_eq!(get_parent(&world, b), None);
    set_parent(&mut world, b, Some(a));
    assert_eq!(get_parent(&world, b), Some(a));
    assert_eq!(world.get(b, TRANSFORM_KIND).unwrap().spatial, (1, 1));
    set_parent(&mut world, b, None);
    assert_eq!(get_parent(&world, b), None);
}

#[test]
fn set_parent_creates_component_when_missing() {
    let mut world: World<T> = World::new();
    let a = world.spawn();
    let b = world.spawn();
    set_parent(&mut world, b, Some(a));
    assert_eq!(get_parent(&world, b), Some(a));
    assert_eq!(world.get(b, TRANSFORM_KIND).unwrap().spatial, (0, 0));
    let c = world.spawn();
    set_parent(&mut world, c, None);
    assert_eq!(world.get(c, TRANSFORM_KIND).unwrap().parent, None);
    assert_eq!(world.get(c, TRANSFORM_KIND).unwrap().spatial, (0, 0));
}

#[test]
fn children_and_root() {
    let mut world: World<T> = World::new();
    let root = world.spawn();
    let mid = world.spawn();
    let leaf = world.spawn();
    let other = world.spawn();
    world.insert(root, Transform::new((0, 0)));
    world.insert(mid, Transform::new((0, 0)).with_parent(root));
    world.insert(leaf, Transform::new((0, 0)).with_parent(mid));
    world.insert(other, Transform::new((0, 0)).with_parent(root));
    assert_eq!(get_children(&world, root), vec![mid, other]);
    assert_eq!(get_children(&world, mid), vec![leaf]);
    assert!(get_children(&world, leaf).is_empty());
    assert_eq!(get_root(&world, leaf), root);
    assert_eq!(get_root(&world, root), root);
    reparent(&mut world, leaf, Some(other));
    assert_eq!(get_children(&world, other), vec![leaf]);
    assert!(get_children(&world, mid).is_empty());
}

#[test]
fn transform_parented_trait() {
    let mut t: T = Transform::new((2, 3));
    assert_eq!(t.parent(), None);
    let mut world: World<T> = World::new();
    let p = world.spawn();
    t.set_parent(Some(p));
    assert_eq!(t.parent(), Some(p));
    let c: T = Parented::new_child_of(Some(p));
    assert_eq!(c.parent, Some(p));
    assert_eq!(c.spatial, (0, 0));
}

#[test]
fn spatial_chain_walks_to_the_root() {
    let mut world: World<T> = World::new();
    let root = world.spawn();
    let mid = world.spawn();
    let leaf = world.spawn();
    let loose = world.spawn();
    world.insert(root, Transform::new((1, 2)));
    world.insert(mid, Transform::new((10, 20)).with_parent(root));
    world.insert(leaf, Transform::new((100, 200)).with_parent(mid));
    assert_eq!(spatial_chain(&world, leaf), vec![(100, 200), (10, 20), (1, 2)]);
    assert_eq!(spatial_chain(&world, root), vec![(1, 2)]);
    assert_eq!(spatial_chain(&world, loose), vec![]);
    // a parent without a transform ends the chain
    let gone = world.spawn();
    world.insert(loose, Transform::new((5, 5)).with_parent(gone));
    assert_eq!(spatial_chain(&world, loose), vec![(5, 5)]);
}

#[test]
fn hierarchy_reads_the_transform_among_other_kinds() {
    let mut world: World<EntityComponent<(i32, i32)>> = World::new();
    let a = world.spawn();
    let b = world.spawn();
    world.insert(b, EntityComponent::Name(Name::new("child")));
    assert_eq!(get_parent(&world, b), None);
    set_parent(&mut world, b, Some(a));
    assert_eq!(get_parent(&world, b), Some(a));
    assert_eq!(get_children(&world, a), vec![b]);
    assert!(world.get(b, 1).is_some());
    match world.get(b, TRANSFORM_KIND) {
        Some(EntityComponent::Transform(t)) => assert_eq!(t.spatial, (0, 0)),
        _ => panic!("transform not created"),
    }
}
