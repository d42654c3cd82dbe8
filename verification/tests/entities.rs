use sindri::entities::{Checkpoint, Collectible, Enemy, Hazard, Name, Player, Transform, Trigger};
use sindri::world::EntityId;

#[test]
fn component_constructors() {
    assert_eq!(Name::new("hero").0, "hero");
    assert_eq!(Collectible::new(5).value, 5);
    assert_eq!(Hazard::new(3).damage, 3);
    assert_eq!(Checkpoint::new(2).checkpoint_id, 2);
    let t = Trigger::new(8);
    assert_eq!(t.trigger_id, 8);
    assert!(!t.activated);
    let _p = Player;
    let _e = Enemy;
}

#[test]
fn transform_with_parent() {
    let t = Transform::new(1u8);
    assert_eq!(t.parent, None);
    let t2 = t.with_parent(EntityId(4));
    assert_eq!(t2.parent, Some(EntityId(4)));
    assert_eq!(t2.spatial, 1);
}
