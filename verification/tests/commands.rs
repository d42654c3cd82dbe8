use sindri::commands::{
    AddComponent, Command, CommandError, CommandHistory, CreateEntity, DeleteEntity, RemoveComponent, ReparentEntity,
    SetTransform,
};
use sindri::entities::{EntityComponent, Name, Transform, TRANSFORM_KIND};
use sindri::hierarchy::get_parent;
use sindri::world::{EntityId, Kinded, World};

#[derive(Clone, Copy, Debug, PartialEq)]
struct Hp(i32);

impl Kinded for Hp {
    fn kind(&self) -> u32 {
        0
    }
}

#[test]
fn create_entity_then_undo_despawns_it() {
    let mut world: World<Hp> = World::new();
    let mut cmd = CreateEntity::new();
    assert_eq!(cmd.entity(), None);
    assert!(cmd.execute(&mut world).is_ok());
    let e = cmd.entity().unwrap();
    assert_eq!(e, EntityId(1));
    assert!(world.is_alive(e));
    assert!(cmd.undo(&mut world).is_ok());
    assert!(!world.is_alive(e));
    // Executing again brings back the same entity.
    assert!(cmd.execute(&mut world).is_ok());
    assert_eq!(cmd.entity(), Some(e));
    assert!(world.is_alive(e));
    assert_eq!(<CreateEntity as Command<Hp>>::description(&cmd), "Create Entity");
}

#[test]
fn delete_entity_then_undo_restores_component() {
    let mut world: World<Hp> = World::new();
    let e = world.spawn();
    world.insert(e, Hp(5));
    let mut cmd = DeleteEntity::new(e);
    cmd.execute(&mut world).unwrap();
    assert!(!world.is_alive(e));
    assert!(world.get(e, 0).is_none());
    cmd.undo(&mut world).unwrap();
    assert!(world.is_alive(e));
    assert_eq!(world.get(e, 0), Some(&Hp(5)));
}

#[test]
fn set_transform_then_undo_restores_spatial() {
    let mut world: World<Transform<(i32, i32)>> = World::new();
    let e = world.spawn();
    let p = world.spawn();
    world.insert(e, Transform::new((1, 2)).with_parent(p));
    let mut cmd = SetTransform::new(e, (7, 8));
    cmd.execute(&mut world).unwrap();
    assert_eq!(world.get(e, TRANSFORM_KIND).unwrap().spatial, (7, 8));
    assert_eq!(world.get(e, TRANSFORM_KIND).unwrap().parent, Some(p));
    cmd.undo(&mut world).unwrap();
    assert_eq!(world.get(e, TRANSFORM_KIND).unwrap().spatial, (1, 2));
    assert_eq!(world.get(e, TRANSFORM_KIND).unwrap().parent, Some(p));
}

#[test]
fn set_transform_on_bare_entity_then_undo_removes_it() {
    let mut world: World<Transform<(i32, i32)>> = World::new();
    let e = world.spawn();
    let mut cmd = SetTransform::new(e, (3, 4));
    cmd.execute(&mut world).unwrap();
    assert_eq!(world.get(e, TRANSFORM_KIND).unwrap().spatial, (3, 4));
    assert_eq!(world.get(e, TRANSFORM_KIND).unwrap().parent, None);
    cmd.undo(&mut world).unwrap();
    assert!(world.get(e, TRANSFORM_KIND).is_none());
}

#[test]
fn reparent_then_undo_restores_parent() {
    let mut world: World<Transform<(i32, i32)>> = World::new();
    let a = world.spawn();
    let b = world.spawn();
    let c = world.spawn();
    world.insert(c, Transform::new((0, 0)).with_parent(a));
    let mut cmd = ReparentEntity::new(c, Some(b));
    cmd.execute(&mut world).unwrap();
    assert_eq!(get_parent(&world, c), Some(b));
    cmd.undo(&mut world).unwrap();
    assert_eq!(get_parent(&world, c), Some(a));
}

#[test]
fn add_component_then_undo() {
    let mut world: World<Hp> = World::new();
    let e = world.spawn();
    let mut cmd = AddComponent::new(e, Hp(9));
    cmd.execute(&mut world).unwrap();
    assert_eq!(world.get(e, 0), Some(&Hp(9)));
    cmd.undo(&mut world).unwrap();
    assert!(world.get(e, 0).is_none());

    world.insert(e, Hp(1));
    let mut over = AddComponent::new(e, Hp(2));
    over.execute(&mut world).unwrap();
    assert_eq!(world.get(e, 0), Some(&Hp(2)));
    over.undo(&mut world).unwrap();
    assert_eq!(world.get(e, 0), Some(&Hp(1)));
}

#[test]
fn remove_component_then_undo() {
    let mut world: World<Hp> = World::new();
    let e = world.spawn();
    world.insert(e, Hp(4));
    let mut cmd = RemoveComponent::new(e, 0);
    cmd.execute(&mut world).unwrap();
    assert!(world.get(e, 0).is_none());
    cmd.undo(&mut world).unwrap();
    assert_eq!(world.get(e, 0), Some(&Hp(4)));
}

#[test]
fn history_undo_redo_cycle() {
    let mut world: World<Hp> = World::new();
    let mut history: CommandHistory<CreateEntity> = CommandHistory::new(10);
    assert!(!history.can_undo());
    assert!(!history.can_redo());
    history.execute(CreateEntity::new(), &mut world).unwrap();
    history.execute(CreateEntity::new(), &mut world).unwrap();
    assert_eq!(history.len(), 2);
    assert_eq!(world.len(), 2);
    assert!(history.can_undo());
    history.undo(&mut world).unwrap();
    assert_eq!(world.len(), 1);
    assert!(!world.is_alive(EntityId(2)));
    assert!(history.can_redo());
    history.redo(&mut world).unwrap();
    assert!(world.is_alive(EntityId(2)));
    assert!(!history.can_redo());
}

#[test]
fn history_errors_when_nothing_to_undo_or_redo() {
    let mut world: World<Hp> = World::new();
    let mut history: CommandHistory<CreateEntity> = CommandHistory::default();
    assert_eq!(history.undo(&mut world), Err(CommandError::NothingToUndo));
    assert_eq!(history.redo(&mut world), Err(CommandError::NothingToRedo));
    history.execute(CreateEntity::new(), &mut world).unwrap();
    assert_eq!(history.redo(&mut world), Err(CommandError::NothingToRedo));
    history.undo(&mut world).unwrap();
    assert_eq!(history.undo(&mut world), Err(CommandError::NothingToUndo));
}

#[test]
fn history_execute_drops_undone_commands() {
    let mut world: World<Hp> = World::new();
    let mut history: CommandHistory<CreateEntity> = CommandHistory::new(10);
    history.execute(CreateEntity::new(), &mut world).unwrap();
    history.execute(CreateEntity::new(), &mut world).unwrap();
    history.undo(&mut world).unwrap();
    history.execute(CreateEntity::new(), &mut world).unwrap();
    assert_eq!(history.len(), 2);
    assert!(!history.can_redo());
}

#[test]
fn history_keeps_at_most_max_commands() {
    let mut world: World<Hp> = World::new();
    let mut history: CommandHistory<CreateEntity> = CommandHistory::new(2);
    for _ in 0..3 {
        history.execute(CreateEntity::new(), &mut world).unwrap();
    }
    assert_eq!(history.len(), 2);
    history.undo(&mut world).unwrap();
    history.undo(&mut world).unwrap();
    assert_eq!(history.undo(&mut world), Err(CommandError::NothingToUndo));
    // The first entity's creation was dropped from the history.
    assert!(world.is_alive(EntityId(1)));
    assert_eq!(world.len(), 1);
    history.clear();
    assert_eq!(history.len(), 0);
    assert!(!history.can_undo());
}

#[test]
fn failed_error_carries_message() {
    let e = CommandError::Failed("boom".to_string());
    assert_eq!(e, CommandError::Failed("boom".to_string()));
    assert_ne!(e, CommandError::NothingToUndo);
}

#[test]
fn delete_entity_then_undo_restores_every_component() {
    let mut w: World<EntityComponent<(i32, i32)>> = World::new();
    let e = w.spawn();
    w.insert(e, EntityComponent::Transform(Transform::new((1, 2))));
    w.insert(e, EntityComponent::Name(Name::new("hero")));
    let other = w.spawn();
    w.insert(other, EntityComponent::Name(Name::new("other")));
    let mut d = DeleteEntity::new(e);
    assert!(d.execute(&mut w).is_ok());
    assert!(!w.is_alive(e));
    assert!(w.get(e, TRANSFORM_KIND).is_none());
    assert!(w.get(e, 1).is_none());
    assert!(d.undo(&mut w).is_ok());
    assert!(w.is_alive(e));
    match w.get(e, TRANSFORM_KIND) {
        Some(EntityComponent::Transform(t)) => assert_eq!(t.spatial, (1, 2)),
        _ => panic!("transform not restored"),
    }
    match w.get(e, 1) {
        Some(EntityComponent::Name(n)) => assert_eq!(n, &Name::new("hero")),
        _ => panic!("name not restored"),
    }
    match w.get(other, 1) {
        Some(EntityComponent::Name(n)) => assert_eq!(n, &Name::new("other")),
        _ => panic!("other entity changed"),
    }
    assert_eq!(<DeleteEntity<EntityComponent<(i32, i32)>> as Command<EntityComponent<(i32, i32)>>>::description(&d), "Delete Entity");
}

#[test]
fn add_and_remove_component_keep_other_kinds() {
    let mut w: World<EntityComponent<(i32, i32)>> = World::new();
    let e = w.spawn();
    w.insert(e, EntityComponent::Transform(Transform::new((3, 4))));
    let mut add = AddComponent::new(e, EntityComponent::Name(Name::new("n")));
    add.execute(&mut w).unwrap();
    assert!(w.get(e, 1).is_some());
    assert!(w.get(e, TRANSFORM_KIND).is_some());
    add.undo(&mut w).unwrap();
    assert!(w.get(e, 1).is_none());
    assert!(w.get(e, TRANSFORM_KIND).is_some());
    let mut rm: RemoveComponent<EntityComponent<(i32, i32)>> = RemoveComponent::new(e, TRANSFORM_KIND);
    rm.execute(&mut w).unwrap();
    assert!(w.get(e, TRANSFORM_KIND).is_none());
    rm.undo(&mut w).unwrap();
    match w.get(e, TRANSFORM_KIND) {
        Some(EntityComponent::Transform(t)) => assert_eq!(t.spatial, (3, 4)),
        _ => panic!("transform not restored"),
    }
}
