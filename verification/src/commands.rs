//! Command system for undo/redo and editor operations.
//!
//! Modifications to the world go through commands so that they can be undone
//! and redone.
use vstd::prelude::*;
use crate::entities::{Parented, Transform, TRANSFORM_KIND};
use crate::hierarchy::{get_parent, parent_in, reparent, reparented};
use crate::world::{kinds_of, lemma_kinds_of, next_after, slot, without_entity, EntityId, Kinded, SlotKey, World};
use vstd::pervasive::cloned;

verus! {

/// Why a command or a history operation did not go through.
#[derive(Clone, Debug, PartialEq, Eq)]
pub enum CommandError {
    /// `undo` was asked for with nothing executed.
    NothingToUndo,
    /// `redo` was asked for with nothing undone.
    NothingToRedo,
    /// A command reported a failure.
    Failed(String),
}

/// A command that can be executed and undone on a world of components `C`.
pub trait Command<C>: Sized {
    /// What `execute` does: from this command and the world before, to the
    /// command and world after, with the result.
    spec fn execute_post(self, cmd: Self, before: World<C>, after: World<C>, r: Result<(), CommandError>) -> bool;

    /// What `undo` does, in the same terms.
    spec fn undo_post(self, cmd: Self, before: World<C>, after: World<C>, r: Result<(), CommandError>) -> bool;

    /// Execute the command, modifying the world.
    fn execute(&mut self, world: &mut World<C>) -> (r: Result<(), CommandError>)
        requires
            old(world).wf(),
        ensures
            final(world).wf(),
            old(self).execute_post(*final(self), *old(world), *final(world), r),
    ;

    /// Undo the command, restoring the world to its previous state.
    fn undo(&mut self, world: &mut World<C>) -> (r: Result<(), CommandError>)
        requires
            old(world).wf(),
        ensures
            final(world).wf(),
            old(self).undo_post(*final(self), *old(world), *final(world), r),
    ;

    /// The text that `description` gives.
    spec fn description_text(&self) -> Seq<char>;

    /// A description of what this command does (for UI).
    fn description(&self) -> (r: &str)
        ensures
            r@ == self.description_text(),
    ;
}

/// `after` is `before` with `e` marked alive again, as `World::restore_entity` does.
pub open spec fn restored<C>(before: World<C>, after: World<C>, e: EntityId) -> bool {
    &&& after.wf()
    &&& after.alive() == before.alive().insert(e)
    &&& after.components() == before.components()
    &&& after.component_order() == before.component_order()
    &&& after.next_id() == (if e.0 >= before.next_id() { next_after(e.0) } else { before.next_id() })
}

/// `after` is `before` with `e` despawned, as `World::despawn` does.
pub open spec fn despawned<C>(before: World<C>, after: World<C>, e: EntityId) -> bool {
    &&& after.wf()
    &&& after.alive() == before.alive().remove(e)
    &&& after.components() == (if before.alive().contains(e) { without_entity(before.components(), e) } else { before.components() })
    &&& after.next_id() == before.next_id()
}

/// Command to create a new entity.
#[derive(Clone, Debug)]
pub struct CreateEntity {
    entity: Option<EntityId>,
}

impl CreateEntity {
    pub fn new() -> (c: Self)
        ensures
            c.created() == None::<EntityId>,
    {
        CreateEntity { entity: None }
    }

    /// The entity this command created (set by its first execution).
    pub closed spec fn created(&self) -> Option<EntityId> {
        self.entity
    }

    /// Get the created entity ID (only valid after execute).
    pub fn entity(&self) -> (r: Option<EntityId>)
        ensures
            r == self.created(),
    {
        self.entity
    }
}

impl<C> Command<C> for CreateEntity {
    open spec fn execute_post(self, cmd: Self, before: World<C>, after: World<C>, r: Result<(), CommandError>) -> bool {
        &&& r is Ok
        &&& match self.created() {
            None => {
                &&& cmd.created() == Some(EntityId(before.next_id()))
                &&& after.alive() == before.alive().insert(EntityId(before.next_id()))
                &&& after.components() == before.components()
                &&& after.component_order() == before.component_order()
                &&& after.next_id() == next_after(before.next_id())
            },
            Some(e) => {
                &&& cmd.created() == Some(e)
                &&& (before.alive().contains(e) ==> after == before)
                &&& (!before.alive().contains(e) ==> restored(before, after, e))
            },
        }
    }

    open spec fn undo_post(self, cmd: Self, before: World<C>, after: World<C>, r: Result<(), CommandError>) -> bool {
        &&& r is Ok
        &&& cmd.created() == self.created()
        &&& match self.created() {
            None => after == before,
            Some(e) => despawned(before, after, e),
        }
    }

    fn execute(&mut self, world: &mut World<C>) -> (r: Result<(), CommandError>) {
        match self.entity {
            None => {
                let id = world.spawn();
                self.entity = Some(id);
            },
            Some(entity) => {
                if !world.is_alive(entity) {
                    world.restore_entity(entity);
                }
            },
        }
        Ok(())
    }

    fn undo(&mut self, world: &mut World<C>) -> (r: Result<(), CommandError>) {
        if let Some(entity) = self.entity {
            world.despawn(entity);
        }
        Ok(())
    }

    open spec fn description_text(&self) -> Seq<char> {
        "Create Entity"@
    }

    fn description(&self) -> (r: &str) {
        "Create Entity"
    }
}

/// The kinds of the saved components, in order.
pub open spec fn saved_kinds<C>(saved: Seq<(u32, C)>) -> Seq<u32> {
    saved.map_values(|p: (u32, C)| p.0)
}

/// `after` is `before` with the saved components of `e` put back, each as a
/// clone in the slot of its kind; no other slot changes.
pub open spec fn put_back<C: Clone>(before: Map<SlotKey, C>, after: Map<SlotKey, C>, e: EntityId, saved: Seq<(u32, C)>) -> bool {
    &&& forall|s: SlotKey| #[trigger] after.contains_key(s)
        <==> (before.contains_key(s) || (s.entity == e && saved_kinds(saved).contains(s.kind)))
    &&& forall|s: SlotKey| #[trigger] before.contains_key(s) && !(s.entity == e && saved_kinds(saved).contains(s.kind))
        ==> after[s] == before[s]
    &&& forall|i: int| 0 <= i < saved.len() ==> cloned(saved[i].1, #[trigger] after[slot(e, saved[i].0)])
}

/// Command to delete an entity; its components are kept so that undo can restore them.
#[derive(Clone, Debug)]
pub struct DeleteEntity<C> {
    entity: EntityId,
    components: Vec<(u32, C)>,
    captured: bool,
}

impl<C> DeleteEntity<C> {
    pub fn new(entity: EntityId) -> (d: Self)
        ensures
            d.target() == entity,
            d.saved() == Seq::<(u32, C)>::empty(),
            !d.is_captured(),
    {
        DeleteEntity { entity, components: Vec::new(), captured: false }
    }

    pub closed spec fn target(&self) -> EntityId {
        self.entity
    }

    /// The components saved at the first execution, with their kinds.
    pub closed spec fn saved(&self) -> Seq<(u32, C)> {
        self.components@
    }

    pub closed spec fn is_captured(&self) -> bool {
        self.captured
    }
}

impl<C: Clone> Command<C> for DeleteEntity<C> {
    open spec fn execute_post(self, cmd: Self, before: World<C>, after: World<C>, r: Result<(), CommandError>) -> bool {
        let e = self.target();
        &&& r is Ok
        &&& cmd.target() == e
        &&& cmd.is_captured()
        &&& (self.is_captured() ==> cmd.saved() == self.saved())
        &&& (!self.is_captured() ==> {
            &&& saved_kinds(cmd.saved()) == kinds_of(before.component_order(), e)
            &&& saved_kinds(cmd.saved()).no_duplicates()
            &&& forall|i: int| 0 <= i < cmd.saved().len() ==> before.components().contains_key(slot(e, cmd.saved()[i].0))
                && cloned(before.components()[slot(e, cmd.saved()[i].0)], #[trigger] cmd.saved()[i].1)
        })
        &&& despawned(before, after, e)
    }

    open spec fn undo_post(self, cmd: Self, before: World<C>, after: World<C>, r: Result<(), CommandError>) -> bool {
        &&& r is Ok
        &&& cmd == self
        &&& after.wf()
        &&& after.alive() == before.alive().insert(self.target())
        &&& after.next_id() == (if self.target().0 >= before.next_id() { next_after(self.target().0) } else { before.next_id() })
        &&& (saved_kinds(self.saved()).no_duplicates() ==> put_back(before.components(), after.components(), self.target(), self.saved()))
    }

    fn execute(&mut self, world: &mut World<C>) -> (r: Result<(), CommandError>) {
        if !self.captured {
            self.components = world.components_of(self.entity);
            self.captured = true;
            proof {
                world.lemma_wf();
                lemma_kinds_of(world.component_order(), self.entity);
                assert(saved_kinds(self.components@) =~= kinds_of(world.component_order(), self.entity));
            }
        }
        world.despawn(self.entity);
        Ok(())
    }

    fn undo(&mut self, world: &mut World<C>) -> (r: Result<(), CommandError>) {
        world.restore_entity(self.entity);
        let ghost mid = world.components();
        let ghost e = self.entity;
        let ghost saved = self.components@;
        let mut i: usize = 0;
        while i < self.components.len()
            invariant
                world.wf(),
                saved == self.components@,
                e == self.entity,
                i <= saved.len(),
                world.alive() == old(world).alive().insert(e),
                world.next_id() == (if e.0 >= old(world).next_id() { next_after(e.0) } else { old(world).next_id() }),
                mid == old(world).components(),
                saved_kinds(saved).no_duplicates() ==> put_back(mid, world.components(), e, saved.take(i as int)),
            decreases saved.len() - i,
        {
            let k = self.components[i].0;
            let c = self.components[i].1.clone();
            let ghost cur = world.components();
            world.insert_slot(self.entity, k, c);
            proof {
                let t0 = saved.take(i as int);
                let t1 = saved.take(i + 1);
                assert(saved_kinds(t1) =~= saved_kinds(t0).push(k));
                if saved_kinds(saved).no_duplicates() {
                    assert forall|j: int| 0 <= j < t1.len() implies cloned(t1[j].1, #[trigger] world.components()[slot(e, t1[j].0)]) by {
                        if j < i {
                            assert(saved_kinds(saved)[j] != saved_kinds(saved)[i as int]);
                            assert(t0[j] == t1[j]);
                        }
                    }
                    assert forall|s: SlotKey| #[trigger] world.components().contains_key(s)
                        <==> (mid.contains_key(s) || (s.entity == e && saved_kinds(t1).contains(s.kind))) by {
                        if s == slot(e, k) {
                            assert(saved_kinds(t1)[i as int] == k);
                        }
                        if s.entity == e && saved_kinds(t1).contains(s.kind) && s.kind != k {
                            let j = choose|j: int| 0 <= j < saved_kinds(t1).len() && #[trigger] saved_kinds(t1)[j] == s.kind;
                            assert(saved_kinds(t0)[j] == s.kind);
                        }
                        if s.entity == e && saved_kinds(t0).contains(s.kind) {
                            let j = choose|j: int| 0 <= j < saved_kinds(t0).len() && #[trigger] saved_kinds(t0)[j] == s.kind;
                            assert(saved_kinds(t1)[j] == s.kind);
                        }
                    }
                    assert forall|s: SlotKey| #[trigger] mid.contains_key(s) && !(s.entity == e && saved_kinds(t1).contains(s.kind))
                        implies world.components()[s] == mid[s] by {
                        if s.entity == e && saved_kinds(t0).contains(s.kind) {
                            let j = choose|j: int| 0 <= j < saved_kinds(t0).len() && #[trigger] saved_kinds(t0)[j] == s.kind;
                            assert(saved_kinds(t1)[j] == s.kind);
                        }
                        assert(s != slot(e, k)) by {
                            if s == slot(e, k) {
                                assert(saved_kinds(t1)[i as int] == k);
                            }
                        }
                    }
                }
            }
            i = i + 1;
        }
        proof {
            assert(saved.take(saved.len() as int) =~= saved);
        }
        Ok(())
    }

    open spec fn description_text(&self) -> Seq<char> {
        "Delete Entity"@
    }

    fn description(&self) -> (r: &str) {
        "Delete Entity"
    }
}

/// Command to set the spatial part of an entity's transform.
#[derive(Clone, Debug)]
pub struct SetTransform<S> {
    entity: EntityId,
    had_transform: bool,
    old_spatial: Option<S>,
    new_spatial: S,
}

impl<S> SetTransform<S> {
    pub fn new(entity: EntityId, spatial: S) -> (c: Self)
        ensures
            c.target() == entity,
            c.new_value() == spatial,
            c.previous() == None::<S>,
    {
        SetTransform { entity, had_transform: false, old_spatial: None, new_spatial: spatial }
    }

    pub closed spec fn target(&self) -> EntityId {
        self.entity
    }

    pub closed spec fn new_value(&self) -> S {
        self.new_spatial
    }

    /// The spatial value saved at the first execution, if the entity had a transform.
    pub closed spec fn previous(&self) -> Option<S> {
        self.old_spatial
    }

    pub closed spec fn had(&self) -> bool {
        self.had_transform
    }
}

impl<S: Copy> Command<Transform<S>> for SetTransform<S> {
    open spec fn execute_post(
        self,
        cmd: Self,
        before: World<Transform<S>>,
        after: World<Transform<S>>,
        r: Result<(), CommandError>,
    ) -> bool {
        let e = self.target();
        let s = slot(e, TRANSFORM_KIND);
        &&& r is Ok
        &&& cmd.target() == e
        &&& cmd.new_value() == self.new_value()
        &&& (self.previous() is None ==> cmd.had() == before.components().contains_key(s))
        &&& (self.previous() is Some ==> cmd.had() == self.had())
        &&& (self.previous() is None && before.components().contains_key(s) ==> cmd.previous() == Some(before.components()[s].spatial))
        &&& (self.previous() is None && !before.components().contains_key(s) ==> cmd.previous() == None::<S>)
        &&& (self.previous() is Some ==> cmd.previous() == self.previous())
        &&& after.alive() == before.alive()
        &&& after.next_id() == before.next_id()
        &&& (before.components().contains_key(s) ==> after.components() == before.components().insert(
            s,
            Transform { spatial: self.new_value(), parent: before.components()[s].parent },
        ))
        &&& (!before.components().contains_key(s) ==> after.components() == before.components().insert(
            s,
            Transform { spatial: self.new_value(), parent: None },
        ))
    }

    open spec fn undo_post(
        self,
        cmd: Self,
        before: World<Transform<S>>,
        after: World<Transform<S>>,
        r: Result<(), CommandError>,
    ) -> bool {
        let e = self.target();
        let s = slot(e, TRANSFORM_KIND);
        &&& r is Ok
        &&& cmd == self
        &&& after.alive() == before.alive()
        &&& after.next_id() == before.next_id()
        &&& (!self.had() ==> after.components() == before.components().remove(s))
        &&& (self.had() && before.components().contains_key(s) && self.previous() is Some ==> after.components()
            == before.components().insert(
            s,
            Transform { spatial: self.previous().unwrap(), parent: before.components()[s].parent },
        ))
        &&& (self.had() && !(before.components().contains_key(s) && self.previous() is Some) ==> after.components()
            == before.components())
    }

    fn execute(&mut self, world: &mut World<Transform<S>>) -> (r: Result<(), CommandError>) {
        let first = self.old_spatial.is_none();
        if first {
            self.had_transform = world.get(self.entity, TRANSFORM_KIND).is_some();
        }
        match world.get_mut(self.entity, TRANSFORM_KIND) {
            Some(t) => {
                if first {
                    self.old_spatial = Some(t.spatial);
                }
                t.spatial = self.new_spatial;
            },
            None => {
                world.insert(self.entity, Transform::new(self.new_spatial));
            },
        }
        Ok(())
    }

    fn undo(&mut self, world: &mut World<Transform<S>>) -> (r: Result<(), CommandError>) {
        if self.had_transform {
            match world.get_mut(self.entity, TRANSFORM_KIND) {
                Some(t) => {
                    if let Some(old_spatial) = self.old_spatial {
                        t.spatial = old_spatial;
                    }
                },
                None => {},
            }
            proof {
                let s = slot(self.entity, TRANSFORM_KIND);
                if old(world).components().contains_key(s) && self.old_spatial is None {
                    assert(world.components() =~= old(world).components());
                }
            }
        } else {
            world.remove(self.entity, TRANSFORM_KIND);
        }
        Ok(())
    }

    open spec fn description_text(&self) -> Seq<char> {
        "Set Transform"@
    }

    fn description(&self) -> (r: &str) {
        "Set Transform"
    }
}

/// Command to reparent an entity in the hierarchy.
#[derive(Clone, Debug)]
pub struct ReparentEntity {
    entity: EntityId,
    old_parent: Option<EntityId>,
    new_parent: Option<EntityId>,
}

impl ReparentEntity {
    pub fn new(entity: EntityId, new_parent: Option<EntityId>) -> (c: Self)
        ensures
            c.target() == entity,
            c.new_value() == new_parent,
            c.previous() == None::<EntityId>,
    {
        ReparentEntity { entity, old_parent: None, new_parent }
    }

    pub closed spec fn target(&self) -> EntityId {
        self.entity
    }

    pub closed spec fn new_value(&self) -> Option<EntityId> {
        self.new_parent
    }

    /// The parent saved at execution (kept once it is `Some`).
    pub closed spec fn previous(&self) -> Option<EntityId> {
        self.old_parent
    }
}

impl<C: Parented> Command<C> for ReparentEntity {
    open spec fn execute_post(self, cmd: Self, before: World<C>, after: World<C>, r: Result<(), CommandError>) -> bool {
        &&& r is Ok
        &&& cmd.target() == self.target()
        &&& cmd.new_value() == self.new_value()
        &&& cmd.previous() == (if self.previous() is None { parent_in(&before, self.target()) } else { self.previous() })
        &&& reparented(before, after, self.target(), self.new_value())
    }

    open spec fn undo_post(self, cmd: Self, before: World<C>, after: World<C>, r: Result<(), CommandError>) -> bool {
        &&& r is Ok
        &&& cmd == self
        &&& reparented(before, after, self.target(), self.previous())
    }

    fn execute(&mut self, world: &mut World<C>) -> (r: Result<(), CommandError>) {
        if self.old_parent.is_none() {
            self.old_parent = get_parent(world, self.entity);
        }
        reparent(world, self.entity, self.new_parent);
        Ok(())
    }

    fn undo(&mut self, world: &mut World<C>) -> (r: Result<(), CommandError>) {
        reparent(world, self.entity, self.old_parent);
        Ok(())
    }

    open spec fn description_text(&self) -> Seq<char> {
        "Reparent Entity"@
    }

    fn description(&self) -> (r: &str) {
        "Reparent Entity"
    }
}

/// Command to add (or replace) a component of an entity.
#[derive(Clone, Debug)]
pub struct AddComponent<T> {
    entity: EntityId,
    component: T,
    had_component: bool,
    old_component: Option<T>,
}

impl<T> AddComponent<T> {
    pub fn new(entity: EntityId, component: T) -> (c: Self)
        ensures
            c.target() == entity,
            c.value() == component,
            !c.had(),
            c.previous() == None::<T>,
    {
        AddComponent { entity, component, had_component: false, old_component: None }
    }

    pub closed spec fn target(&self) -> EntityId {
        self.entity
    }

    pub closed spec fn value(&self) -> T {
        self.component
    }

    pub closed spec fn had(&self) -> bool {
        self.had_component
    }

    /// The component of that kind the entity held before the first execution.
    pub closed spec fn previous(&self) -> Option<T> {
        self.old_component
    }
}

impl<T: Clone + Kinded> AddComponent<T> {
    /// The slot the component goes to: its entity and its kind.
    pub open spec fn target_slot(&self) -> SlotKey {
        slot(self.target(), self.value().kind_of())
    }
}

impl<T: Clone + Kinded> Command<T> for AddComponent<T> {
    open spec fn execute_post(self, cmd: Self, before: World<T>, after: World<T>, r: Result<(), CommandError>) -> bool {
        let s = self.target_slot();
        &&& r is Ok
        &&& cmd.target() == self.target()
        &&& cmd.value() == self.value()
        &&& (self.previous() is Some ==> cmd.previous() == self.previous() && cmd.had() == self.had())
        &&& (self.previous() is None ==> {
            &&& cmd.had() == before.components().contains_key(s)
            &&& match cmd.previous() {
                Some(c) => before.components().contains_key(s) && cloned(before.components()[s], c),
                None => !before.components().contains_key(s),
            }
        })
        &&& after.wf()
        &&& after.alive() == before.alive()
        &&& after.next_id() == before.next_id()
        &&& after.components().dom() == before.components().dom().insert(s)
        &&& after.components().remove(s) == before.components().remove(s)
        &&& cloned(self.value(), after.components()[s])
    }

    open spec fn undo_post(self, cmd: Self, before: World<T>, after: World<T>, r: Result<(), CommandError>) -> bool {
        let s = self.target_slot();
        &&& r is Ok
        &&& cmd == self
        &&& after.alive() == before.alive()
        &&& after.next_id() == before.next_id()
        &&& (!self.had() ==> after.components() == before.components().remove(s))
        &&& (self.had() && self.previous() is Some ==> {
            &&& after.components().dom() == before.components().dom().insert(s)
            &&& after.components().remove(s) == before.components().remove(s)
            &&& cloned(self.previous().unwrap(), after.components()[s])
        })
        &&& (self.had() && self.previous() is None ==> after.components() == before.components())
    }

    fn execute(&mut self, world: &mut World<T>) -> (r: Result<(), CommandError>) {
        let kind = self.component.kind();
        if self.old_component.is_none() {
            self.old_component = match world.get(self.entity, kind) {
                Some(c) => Some(c.clone()),
                None => None,
            };
            self.had_component = self.old_component.is_some();
        }
        let c = self.component.clone();
        world.insert_slot(self.entity, kind, c);
        assert(world.components().remove(slot(self.entity, kind)) =~= old(world).components().remove(slot(self.entity, kind)));
        Ok(())
    }

    fn undo(&mut self, world: &mut World<T>) -> (r: Result<(), CommandError>) {
        let kind = self.component.kind();
        if self.had_component {
            if let Some(old_component) = &self.old_component {
                let c = old_component.clone();
                world.insert_slot(self.entity, kind, c);
                assert(world.components().remove(slot(self.entity, kind)) =~= old(world).components().remove(slot(self.entity, kind)));
            }
        } else {
            world.remove(self.entity, kind);
        }
        Ok(())
    }

    open spec fn description_text(&self) -> Seq<char> {
        "Add Component"@
    }

    fn description(&self) -> (r: &str) {
        "Add Component"
    }
}

/// Command to remove the component of one kind from an entity.
#[derive(Clone, Debug)]
pub struct RemoveComponent<T> {
    entity: EntityId,
    kind: u32,
    component: Option<T>,
}

impl<T> RemoveComponent<T> {
    pub fn new(entity: EntityId, kind: u32) -> (c: Self)
        ensures
            c.target() == entity,
            c.target_kind() == kind,
            c.removed() == None::<T>,
    {
        RemoveComponent { entity, kind, component: None }
    }

    pub closed spec fn target(&self) -> EntityId {
        self.entity
    }

    pub closed spec fn target_kind(&self) -> u32 {
        self.kind
    }

    /// The slot the component is taken from.
    pub open spec fn target_slot(&self) -> SlotKey {
        slot(self.target(), self.target_kind())
    }

    /// The component taken by the first execution that found one.
    pub closed spec fn removed(&self) -> Option<T> {
        self.component
    }
}

impl<T: Clone> Command<T> for RemoveComponent<T> {
    open spec fn execute_post(self, cmd: Self, before: World<T>, after: World<T>, r: Result<(), CommandError>) -> bool {
        let s = self.target_slot();
        &&& r is Ok
        &&& cmd.target() == self.target()
        &&& cmd.target_kind() == self.target_kind()
        &&& (self.removed() is Some ==> cmd.removed() == self.removed())
        &&& (self.removed() is None ==> match cmd.removed() {
            Some(c) => before.components().contains_key(s) && cloned(before.components()[s], c),
            None => !before.components().contains_key(s),
        })
        &&& after.wf()
        &&& after.alive() == before.alive()
        &&& after.next_id() == before.next_id()
        &&& after.components() == before.components().remove(s)
    }

    open spec fn undo_post(self, cmd: Self, before: World<T>, after: World<T>, r: Result<(), CommandError>) -> bool {
        let s = self.target_slot();
        &&& r is Ok
        &&& cmd == self
        &&& after.alive() == before.alive()
        &&& after.next_id() == before.next_id()
        &&& match self.removed() {
            Some(c) => {
                &&& after.components().dom() == before.components().dom().insert(s)
                &&& after.components().remove(s) == before.components().remove(s)
                &&& cloned(c, after.components()[s])
            },
            None => after.components() == before.components(),
        }
    }

    fn execute(&mut self, world: &mut World<T>) -> (r: Result<(), CommandError>) {
        let removed = world.remove(self.entity, self.kind);
        if self.component.is_none() {
            self.component = match &removed {
                Some(c) => Some(c.clone()),
                None => None,
            };
        }
        Ok(())
    }

    fn undo(&mut self, world: &mut World<T>) -> (r: Result<(), CommandError>) {
        if let Some(c) = &self.component {
            let c2 = c.clone();
            world.insert_slot(self.entity, self.kind, c2);
            assert(world.components().remove(slot(self.entity, self.kind)) =~= old(world).components().remove(slot(self.entity, self.kind)));
        }
        Ok(())
    }

    open spec fn description_text(&self) -> Seq<char> {
        "Remove Component"@
    }

    fn description(&self) -> (r: &str) {
        "Remove Component"
    }
}

/// The history kept after a new command: everything up to the cursor, the new
/// command, and at most `max` entries (the oldest dropped first).
pub open spec fn trimmed<K>(kept: Seq<K>, max: nat) -> Seq<K> {
    if kept.len() > max { kept.drop_first() } else { kept }
}

/// Command history manager for undo/redo.
pub struct CommandHistory<K> {
    history: Vec<K>,
    current_index: usize,
    max_history: usize,
}

impl<K> CommandHistory<K> {
    pub closed spec fn wf(&self) -> bool {
        &&& self.current_index <= self.history@.len()
        &&& self.history@.len() <= self.max_history
    }

    /// The commands in the history, oldest first.
    pub closed spec fn commands(&self) -> Seq<K> {
        self.history@
    }

    /// How many commands of the history are currently applied.
    pub closed spec fn cursor(&self) -> nat {
        self.current_index as nat
    }

    /// The maximum number of commands kept.
    pub closed spec fn capacity(&self) -> nat {
        self.max_history as nat
    }

    pub proof fn lemma_wf(&self)
        requires
            self.wf(),
        ensures
            self.cursor() <= self.commands().len() <= self.capacity(),
    {
    }

    /// Create a new command history with a maximum depth.
    pub fn new(max_history: usize) -> (h: Self)
        ensures
            h.wf(),
            h.commands() == Seq::<K>::empty(),
            h.cursor() == 0,
            h.capacity() == max_history,
    {
        CommandHistory { history: Vec::new(), current_index: 0, max_history }
    }

    /// Execute a command and add it to history, dropping any undone commands.
    pub fn execute<C>(&mut self, command: K, world: &mut World<C>) -> (r: Result<(), CommandError>)
        where
            K: Command<C>,
        requires
            old(self).wf(),
            old(world).wf(),
        ensures
            final(self).wf(),
            final(world).wf(),
            final(self).capacity() == old(self).capacity(),
            exists|done: K| {
                &&& #[trigger] command.execute_post(done, *old(world), *final(world), r)
                &&& (r is Ok ==> final(self).commands() == trimmed(
                    old(self).commands().take(old(self).cursor() as int).push(done),
                    old(self).capacity(),
                ))
            },
            r is Ok ==> final(self).cursor() == final(self).commands().len(),
            r is Err ==> final(self).commands() == old(self).commands().take(old(self).cursor() as int),
            r is Err ==> final(self).cursor() == old(self).cursor(),
    {
        if self.current_index < self.history.len() {
            self.history.truncate(self.current_index);
        }
        assert(self.history@ == old(self).history@.take(old(self).current_index as int));
        let mut command = command;
        let r = command.execute(world);
        if r.is_err() {
            return r;
        }
        let ghost done = command;
        let ghost kept = old(self).history@.take(old(self).current_index as int).push(done);
        self.history.push(command);
        if self.history.len() > self.max_history {
            self.history.remove(0);
            assert(self.history@ =~= kept.drop_first());
        }
        assert(self.history@ =~= trimmed(kept, old(self).max_history as nat));
        self.current_index = self.history.len();
        r
    }

    /// Undo the last applied command.
    pub fn undo<C>(&mut self, world: &mut World<C>) -> (r: Result<(), CommandError>)
        where
            K: Command<C>,
        requires
            old(self).wf(),
            old(world).wf(),
        ensures
            final(self).wf(),
            final(world).wf(),
            final(self).capacity() == old(self).capacity(),
            old(self).cursor() == 0 ==> r == Err::<(), CommandError>(CommandError::NothingToUndo),
            old(self).cursor() == 0 ==> *final(self) == *old(self) && *final(world) == *old(world),
            old(self).cursor() > 0 ==> {
                &&& final(self).cursor() == old(self).cursor() - 1
                &&& final(self).commands().len() == old(self).commands().len()
                &&& final(self).commands() == old(self).commands().update(
                    final(self).cursor() as int,
                    final(self).commands()[final(self).cursor() as int],
                )
                &&& old(self).commands()[final(self).cursor() as int].undo_post(
                    final(self).commands()[final(self).cursor() as int],
                    *old(world),
                    *final(world),
                    r,
                )
            },
    {
        if self.current_index == 0 {
            return Err(CommandError::NothingToUndo);
        }
        self.current_index = self.current_index - 1;
        let i = self.current_index;
        let cmd = &mut self.history[i];
        let r = cmd.undo(world);
        assert(self.history@ =~= old(self).history@.update(i as int, self.history@[i as int]));
        r
    }

    /// Redo the next undone command.
    pub fn redo<C>(&mut self, world: &mut World<C>) -> (r: Result<(), CommandError>)
        where
            K: Command<C>,
        requires
            old(self).wf(),
            old(world).wf(),
        ensures
            final(self).wf(),
            final(world).wf(),
            final(self).capacity() == old(self).capacity(),
            old(self).cursor() >= old(self).commands().len() ==> r == Err::<(), CommandError>(CommandError::NothingToRedo),
            old(self).cursor() >= old(self).commands().len() ==> *final(self) == *old(self) && *final(world) == *old(world),
            old(self).cursor() < old(self).commands().len() ==> {
                &&& final(self).commands().len() == old(self).commands().len()
                &&& final(self).commands() == old(self).commands().update(
                    old(self).cursor() as int,
                    final(self).commands()[old(self).cursor() as int],
                )
                &&& old(self).commands()[old(self).cursor() as int].execute_post(
                    final(self).commands()[old(self).cursor() as int],
                    *old(world),
                    *final(world),
                    r,
                )
                &&& (r is Ok ==> final(self).cursor() == old(self).cursor() + 1)
                &&& (r is Err ==> final(self).cursor() == old(self).cursor())
            },
    {
        if self.current_index >= self.history.len() {
            return Err(CommandError::NothingToRedo);
        }
        let i = self.current_index;
        let cmd = &mut self.history[i];
        let r = cmd.execute(world);
        assert(self.history@ =~= old(self).history@.update(i as int, self.history@[i as int]));
        if r.is_ok() {
            self.current_index = self.current_index + 1;
        }
        r
    }

    /// Check if undo is possible.
    pub fn can_undo(&self) -> (b: bool)
        ensures
            b == (self.cursor() > 0),
    {
        self.current_index > 0
    }

    /// Check if redo is possible.
    pub fn can_redo(&self) -> (b: bool)
        ensures
            b == (self.cursor() < self.commands().len()),
    {
        self.current_index < self.history.len()
    }

    /// Clear all history.
    pub fn clear(&mut self)
        requires
            old(self).wf(),
        ensures
            final(self).wf(),
            final(self).commands() == Seq::<K>::empty(),
            final(self).cursor() == 0,
            final(self).capacity() == old(self).capacity(),
    {
        self.history.clear();
        self.current_index = 0;
    }

    /// Get the number of commands in history.
    pub fn len(&self) -> (n: usize)
        ensures
            n == self.commands().len(),
    {
        self.history.len()
    }
}

impl<K> Default for CommandHistory<K> {
    fn default() -> (h: Self)
        ensures
            h.wf(),
            h.commands() == Seq::<K>::empty(),
            h.cursor() == 0,
            h.capacity() == 100,
    {
        Self::new(100)
    }
}

/// Creating an entity and undoing it leaves the alive set and the components
/// as they were, when the id handed out was neither alive nor holding a component.
pub proof fn law_create_entity_undo<C>(
    c0: CreateEntity,
    c1: CreateEntity,
    c2: CreateEntity,
    w0: World<C>,
    w1: World<C>,
    w2: World<C>,
    r1: Result<(), CommandError>,
    r2: Result<(), CommandError>,
)
    requires
        w0.wf(),
        c0.created() is None,
        !w0.alive().contains(EntityId(w0.next_id())),
        forall|k: u32| !w0.components().contains_key(#[trigger] slot(EntityId(w0.next_id()), k)),
        Command::<C>::execute_post(c0, c1, w0, w1, r1),
        Command::<C>::undo_post(c1, c2, w1, w2, r2),
    ensures
        w2.alive() == w0.alive(),
        w2.components() == w0.components(),
{
    let id = EntityId(w0.next_id());
    assert(w2.alive() =~= w0.alive());
    assert forall|s: SlotKey| #[trigger] w2.components().contains_key(s) == w0.components().contains_key(s) by {
        if s.entity == id {
            assert(slot(id, s.kind) == s);
        }
    }
    assert(w2.components() =~= w0.components());
}

/// Deleting an alive entity and undoing it brings the entity back with every
/// component it held, each a clone of a clone of the old one, and every
/// other entity's components as they were.
pub proof fn law_delete_entity_undo<C: Clone>(
    c0: DeleteEntity<C>,
    c1: DeleteEntity<C>,
    c2: DeleteEntity<C>,
    w0: World<C>,
    w1: World<C>,
    w2: World<C>,
    r1: Result<(), CommandError>,
    r2: Result<(), CommandError>,
)
    requires
        w0.wf(),
        !c0.is_captured(),
        w0.alive().contains(c0.target()),
        c0.execute_post(c1, w0, w1, r1),
        c1.undo_post(c2, w1, w2, r2),
    ensures
        w2.alive() == w0.alive(),
        w2.components().dom() == w0.components().dom(),
        forall|s: SlotKey| s.entity != c0.target() && #[trigger] w0.components().contains_key(s)
            ==> w2.components()[s] == w0.components()[s],
        forall|k: u32| #[trigger] w0.components().contains_key(slot(c0.target(), k)) ==> exists|c: C|
            cloned(w0.components()[slot(c0.target(), k)], c) && #[trigger] cloned(c, w2.components()[slot(c0.target(), k)]),
{
    let e = c0.target();
    let saved = c1.saved();
    let order = w0.component_order();
    w0.lemma_wf();
    lemma_kinds_of(order, e);
    assert(w2.alive() =~= w0.alive());
    assert forall|s: SlotKey| #[trigger] w2.components().contains_key(s) <==> w0.components().contains_key(s) by {
        if s.entity == e {
            assert(slot(e, s.kind) == s);
            assert(order.to_set().contains(s) <==> order.contains(s));
        }
    }
    assert(w2.components().dom() =~= w0.components().dom());
    assert forall|k: u32| #[trigger] w0.components().contains_key(slot(e, k)) implies exists|c: C|
        cloned(w0.components()[slot(e, k)], c) && #[trigger] cloned(c, w2.components()[slot(e, k)]) by {
        assert(order.to_set().contains(slot(e, k)));
        assert(saved_kinds(saved).contains(k));
        let i = choose|i: int| 0 <= i < saved_kinds(saved).len() && #[trigger] saved_kinds(saved)[i] == k;
        assert(saved[i].0 == k);
        assert(cloned(saved[i].1, w2.components()[slot(e, saved[i].0)]));
    }
}

/// Setting a transform and undoing it leaves every component as it was.
pub proof fn law_set_transform_undo<S: Copy>(
    c0: SetTransform<S>,
    c1: SetTransform<S>,
    c2: SetTransform<S>,
    w0: World<Transform<S>>,
    w1: World<Transform<S>>,
    w2: World<Transform<S>>,
    r1: Result<(), CommandError>,
    r2: Result<(), CommandError>,
)
    requires
        w0.wf(),
        c0.previous() is None,
        c0.execute_post(c1, w0, w1, r1),
        c1.undo_post(c2, w1, w2, r2),
    ensures
        w2.alive() == w0.alive(),
        w2.components() == w0.components(),
{
    let s = slot(c0.target(), TRANSFORM_KIND);
    if w0.components().contains_key(s) {
        assert(w1.components().contains_key(s));
        assert(w2.components() =~= w0.components());
    } else {
        assert(w2.components() =~= w0.components());
    }
}

/// Reparenting an entity and undoing it restores the parent of every entity.
pub proof fn law_reparent_undo<C: Parented>(
    c0: ReparentEntity,
    c1: ReparentEntity,
    c2: ReparentEntity,
    w0: World<C>,
    w1: World<C>,
    w2: World<C>,
    r1: Result<(), CommandError>,
    r2: Result<(), CommandError>,
)
    requires
        w0.wf(),
        c0.previous() is None,
        Command::<C>::execute_post(c0, c1, w0, w1, r1),
        Command::<C>::undo_post(c1, c2, w1, w2, r2),
    ensures
        w2.alive() == w0.alive(),
        forall|e: EntityId| parent_in(&w2, e) == parent_in(&w0, e),
{
    let t = c0.target();
    assert forall|e: EntityId| parent_in(&w2, e) == parent_in(&w0, e) by {
        if e != t {
        } else {
            assert(w1.components().contains_key(slot(t, C::link_kind())));
        }
    }
}

/// Adding a component and undoing it puts back what the entity held in that
/// slot before: nothing, or a clone of a clone of its old component.
pub proof fn law_add_component_undo<T: Clone + Kinded>(
    c0: AddComponent<T>,
    c1: AddComponent<T>,
    c2: AddComponent<T>,
    w0: World<T>,
    w1: World<T>,
    w2: World<T>,
    r1: Result<(), CommandError>,
    r2: Result<(), CommandError>,
)
    requires
        w0.wf(),
        c0.previous() is None,
        c0.execute_post(c1, w0, w1, r1),
        c1.undo_post(c2, w1, w2, r2),
    ensures
        w2.alive() == w0.alive(),
        w2.components().dom() == w0.components().dom(),
        w2.components().remove(c0.target_slot()) == w0.components().remove(c0.target_slot()),
        w0.components().contains_key(c0.target_slot()) ==> exists|c: T|
            cloned(w0.components()[c0.target_slot()], c) && #[trigger] cloned(c, w2.components()[c0.target_slot()]),
{
    let s = c0.target_slot();
    assert(c1.target_slot() == s);
    assert(w2.components().dom() =~= w0.components().dom());
    assert(w2.components().remove(s) =~= w0.components().remove(s));
    if w0.components().contains_key(s) {
        let c = c1.previous().unwrap();
        assert(cloned(c, w2.components()[s]));
    }
}

/// Removing a component and undoing it puts back a clone of a clone of it.
pub proof fn law_remove_component_undo<T: Clone>(
    c0: RemoveComponent<T>,
    c1: RemoveComponent<T>,
    c2: RemoveComponent<T>,
    w0: World<T>,
    w1: World<T>,
    w2: World<T>,
    r1: Result<(), CommandError>,
    r2: Result<(), CommandError>,
)
    requires
        w0.wf(),
        c0.removed() is None,
        c0.execute_post(c1, w0, w1, r1),
        c1.undo_post(c2, w1, w2, r2),
    ensures
        w2.alive() == w0.alive(),
        w2.components().dom() == w0.components().dom(),
        w2.components().remove(c0.target_slot()) == w0.components().remove(c0.target_slot()),
        w0.components().contains_key(c0.target_slot()) ==> exists|c: T|
            cloned(w0.components()[c0.target_slot()], c) && #[trigger] cloned(c, w2.components()[c0.target_slot()]),
{
    let s = c0.target_slot();
    assert(c1.target_slot() == s);
    assert(w2.components().dom() =~= w0.components().dom());
    assert(w2.components().remove(s) =~= w0.components().remove(s));
    if w0.components().contains_key(s) {
        let c = c1.removed().unwrap();
        assert(cloned(c, w2.components()[s]));
    }
}

/// After an undo, a redo is possible, and a redo that succeeds brings the
/// cursor back to where it was before the undo.
pub proof fn law_undo_then_redo<K>(
    h0: CommandHistory<K>,
    h1: CommandHistory<K>,
    h2: CommandHistory<K>,
    r2: Result<(), CommandError>,
)
    requires
        h0.wf(),
        h0.cursor() > 0,
        h1.cursor() == h0.cursor() - 1,
        h1.commands().len() == h0.commands().len(),
        h1.cursor() < h1.commands().len() && r2 is Ok ==> h2.cursor() == h1.cursor() + 1,
    ensures
        h1.cursor() < h1.commands().len(),
        r2 is Ok ==> h2.cursor() == h0.cursor(),
{
    h0.lemma_wf();
}

} // verus!
