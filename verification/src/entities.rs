//! Built-in entity components for common game objects.
use vstd::prelude::*;
use crate::world::{slot, EntityId, Kinded, World};

verus! {

/// The kind of transforms: the components that carry parent links.
pub const TRANSFORM_KIND: u32 = 0;

/// Components that may link their entity to a parent entity. The link is
/// carried by the components of one kind, `link_kind`.
pub trait Parented: Kinded + Sized {
    /// The kind of the components that carry parent links.
    spec fn link_kind() -> u32;

    fn link_kind_value() -> (k: u32)
        ensures
            k == Self::link_kind(),
    ;

    /// The parent recorded in this component.
    spec fn parent_of(&self) -> Option<EntityId>;

    /// This component with its parent link replaced by `parent`, all else kept.
    spec fn with_parent_spec(self, parent: Option<EntityId>) -> Self;

    fn parent(&self) -> (r: Option<EntityId>)
        ensures
            r == self.parent_of(),
    ;

    fn set_parent(&mut self, parent: Option<EntityId>)
        requires
            old(self).kind_of() == Self::link_kind(),
        ensures
            *final(self) == old(self).with_parent_spec(parent),
            final(self).parent_of() == parent,
            final(self).kind_of() == Self::link_kind(),
    ;

    /// A fresh component (at the origin) that records `parent` as its parent.
    fn new_child_of(parent: Option<EntityId>) -> (r: Self)
        ensures
            r.parent_of() == parent,
            r.kind_of() == Self::link_kind(),
    ;
}

/// Transform component: the spatial part (position, rotation, scale) and the
/// parent entity in the hierarchy (`None` for a root entity).
#[derive(Clone, Copy, Debug)]
pub struct Transform<S> {
    pub spatial: S,
    pub parent: Option<EntityId>,
}

impl<S> Transform<S> {
    pub fn new(spatial: S) -> (t: Self)
        ensures
            t.spatial == spatial,
            t.parent == None::<EntityId>,
    {
        Transform { spatial, parent: None }
    }

    /// Set the parent entity (for hierarchy).
    pub fn with_parent(self, parent: EntityId) -> (t: Self)
        ensures
            t.spatial == self.spatial,
            t.parent == Some(parent),
    {
        Transform { spatial: self.spatial, parent: Some(parent) }
    }
}

impl<S> Kinded for Transform<S> {
    open spec fn kind_of(&self) -> u32 {
        TRANSFORM_KIND
    }

    fn kind(&self) -> (k: u32) {
        TRANSFORM_KIND
    }
}

impl<S: Default> Parented for Transform<S> {
    open spec fn link_kind() -> u32 {
        TRANSFORM_KIND
    }

    fn link_kind_value() -> (k: u32) {
        TRANSFORM_KIND
    }

    open spec fn parent_of(&self) -> Option<EntityId> {
        self.parent
    }

    open spec fn with_parent_spec(self, parent: Option<EntityId>) -> Self {
        Transform { spatial: self.spatial, parent }
    }

    fn parent(&self) -> (r: Option<EntityId>) {
        self.parent
    }

    fn set_parent(&mut self, parent: Option<EntityId>) {
        self.parent = parent;
    }

    fn new_child_of(parent: Option<EntityId>) -> (r: Self) {
        Transform { spatial: S::default(), parent }
    }
}

/// Human-readable entity name for editor/debug tooling.
#[derive(Clone, Debug, PartialEq, Eq)]
pub struct Name(pub String);

impl Name {
    pub fn new(name: &str) -> (n: Self)
        ensures
            n.0@ == name@,
    {
        Name(name.to_string())
    }
}

/// Marks an entity as the player.
#[derive(Clone, Copy, Debug, Default)]
pub struct Player;

/// Marks an entity as an enemy.
#[derive(Clone, Copy, Debug, Default)]
pub struct Enemy;

/// Marks an entity as a collectible item.
#[derive(Clone, Copy, Debug, Default)]
pub struct Collectible {
    pub value: i32,
}

impl Collectible {
    pub fn new(value: i32) -> (c: Self)
        ensures
            c.value == value,
    {
        Collectible { value }
    }
}

/// Marks an entity as a hazard (damages player on contact).
#[derive(Clone, Copy, Debug, Default)]
pub struct Hazard {
    pub damage: i32,
}

impl Hazard {
    pub fn new(damage: i32) -> (h: Self)
        ensures
            h.damage == damage,
    {
        Hazard { damage }
    }
}

/// Marks an entity as a checkpoint.
#[derive(Clone, Copy, Debug, Default)]
pub struct Checkpoint {
    pub checkpoint_id: u32,
}

impl Checkpoint {
    pub fn new(id: u32) -> (c: Self)
        ensures
            c.checkpoint_id == id,
    {
        Checkpoint { checkpoint_id: id }
    }
}

/// Marks an entity as a trigger zone (activates something when entered).
#[derive(Clone, Copy, Debug)]
pub struct Trigger {
    pub trigger_id: u32,
    pub activated: bool,
}

impl Trigger {
    pub fn new(id: u32) -> (t: Self)
        ensures
            t.trigger_id == id,
            !t.activated,
    {
        Trigger { trigger_id: id, activated: false }
    }
}

/// One component of any of the built-in kinds, so that a world can hold
/// several kinds of component per entity.
#[derive(Clone, Debug)]
pub enum EntityComponent<S> {
    Transform(Transform<S>),
    Name(Name),
    Player(Player),
    Enemy(Enemy),
    Collectible(Collectible),
    Hazard(Hazard),
    Checkpoint(Checkpoint),
    Trigger(Trigger),
}

impl<S> Kinded for EntityComponent<S> {
    open spec fn kind_of(&self) -> u32 {
        match self {
            EntityComponent::Transform(_) => TRANSFORM_KIND,
            EntityComponent::Name(_) => 1,
            EntityComponent::Player(_) => 2,
            EntityComponent::Enemy(_) => 3,
            EntityComponent::Collectible(_) => 4,
            EntityComponent::Hazard(_) => 5,
            EntityComponent::Checkpoint(_) => 6,
            EntityComponent::Trigger(_) => 7,
        }
    }

    fn kind(&self) -> (k: u32) {
        match self {
            EntityComponent::Transform(_) => TRANSFORM_KIND,
            EntityComponent::Name(_) => 1,
            EntityComponent::Player(_) => 2,
            EntityComponent::Enemy(_) => 3,
            EntityComponent::Collectible(_) => 4,
            EntityComponent::Hazard(_) => 5,
            EntityComponent::Checkpoint(_) => 6,
            EntityComponent::Trigger(_) => 7,
        }
    }
}

impl<S: Default> Parented for EntityComponent<S> {
    open spec fn link_kind() -> u32 {
        TRANSFORM_KIND
    }

    fn link_kind_value() -> (k: u32) {
        TRANSFORM_KIND
    }

    open spec fn parent_of(&self) -> Option<EntityId> {
        match self {
            EntityComponent::Transform(t) => t.parent,
            _ => None,
        }
    }

    open spec fn with_parent_spec(self, parent: Option<EntityId>) -> Self {
        match self {
            EntityComponent::Transform(t) => EntityComponent::Transform(Transform { spatial: t.spatial, parent }),
            other => other,
        }
    }

    fn parent(&self) -> (r: Option<EntityId>) {
        match self {
            EntityComponent::Transform(t) => t.parent,
            _ => None,
        }
    }

    fn set_parent(&mut self, parent: Option<EntityId>) {
        match self {
            EntityComponent::Transform(t) => {
                t.parent = parent;
            },
            _ => {},
        }
    }

    fn new_child_of(parent: Option<EntityId>) -> (r: Self) {
        EntityComponent::Transform(Transform { spatial: S::default(), parent })
    }
}

/// Both components are of the same built-in variant.
pub open spec fn same_variant<S>(a: EntityComponent<S>, b: EntityComponent<S>) -> bool {
    &&& (a is Transform) == (b is Transform)
    &&& (a is Name) == (b is Name)
    &&& (a is Player) == (b is Player)
    &&& (a is Enemy) == (b is Enemy)
    &&& (a is Collectible) == (b is Collectible)
    &&& (a is Hazard) == (b is Hazard)
    &&& (a is Checkpoint) == (b is Checkpoint)
    &&& (a is Trigger) == (b is Trigger)
}

/// Each built-in component variant has a kind of its own: two components
/// share a kind exactly when they are of the same variant, and only
/// transforms have the kind that carries parent links.
pub proof fn law_kinds_distinct<S>(a: EntityComponent<S>, b: EntityComponent<S>)
    ensures
        (a.kind_of() == b.kind_of()) == same_variant(a, b),
        (a.kind_of() == TRANSFORM_KIND) == (a is Transform),
{
}

/// Inserting components of two different variants into one entity keeps
/// both: the second does not replace the first.
pub proof fn law_variants_coexist<S>(
    w0: World<EntityComponent<S>>,
    w1: World<EntityComponent<S>>,
    w2: World<EntityComponent<S>>,
    e: EntityId,
    c1: EntityComponent<S>,
    c2: EntityComponent<S>,
)
    requires
        !same_variant(c1, c2),
        w1.components() == w0.components().insert(slot(e, c1.kind_of()), c1),
        w2.components() == w1.components().insert(slot(e, c2.kind_of()), c2),
    ensures
        w2.components().contains_key(slot(e, c1.kind_of())),
        w2.components()[slot(e, c1.kind_of())] == c1,
        w2.components()[slot(e, c2.kind_of())] == c2,
{
    law_kinds_distinct(c1, c2);
}

} // verus!
