//! Editable scenes: named entities with parent/child links and components.
use vstd::prelude::*;
use vstd::hash_map::HashMapWithView;

verus! {

/// Identifier of an entity within a scene.
pub type SceneEntityId = u64;

/// An entity of a scene, with components of type `C`.
pub struct Entity<C> {
    pub id: SceneEntityId,
    pub name: String,
    pub parent: Option<SceneEntityId>,
    pub children: Vec<SceneEntityId>,
    pub components: Vec<C>,
    pub active: bool,
    pub staged: bool,
    pub prefab_source: Option<String>,
}

/// A scene: its entities by id, and the id the next spawned entity gets.
#[verifier::reject_recursive_types(C)]
pub struct Scene<C> {
    name: String,
    entities: HashMapWithView<u64, Entity<C>>,
    next_id: u64,
}

impl<C> Scene<C> {
    pub closed spec fn wf(&self) -> bool {
        forall|k: u64| #[trigger] self.entities@.contains_key(k) ==> k < self.next_id
    }

    /// The scene's name.
    pub closed spec fn name_spec(&self) -> Seq<char> {
        self.name@
    }

    pub fn name(&self) -> (r: &str)
        ensures
            r@ == self.name_spec(),
    {
        self.name.as_str()
    }

    /// The entities, by id.
    pub closed spec fn entities(&self) -> Map<u64, Entity<C>> {
        self.entities@
    }

    /// The id the next spawned entity gets.
    pub closed spec fn next_id(&self) -> u64 {
        self.next_id
    }

    /// The id the next spawned entity gets.
    pub fn peek_next_id(&self) -> (r: SceneEntityId)
        ensures
            r == self.next_id(),
    {
        self.next_id
    }

    /// An empty scene called `name`.
    pub fn new(name: &str) -> (s: Self)
        ensures
            s.wf(),
            s.name_spec() == name@,
            s.entities() == Map::<u64, Entity<C>>::empty(),
            s.next_id() == 0,
    {
        broadcast use vstd::std_specs::hash::group_hash_axioms;
        Scene { name: name.to_string(), entities: HashMapWithView::new(), next_id: 0 }
    }

    /// The entity with id `id`, if any.
    pub fn entity(&self, id: SceneEntityId) -> (r: Option<&Entity<C>>)
        ensures
            match r {
                Some(e) => self.entities().contains_key(id) && *e == self.entities()[id],
                None => !self.entities().contains_key(id),
            },
    {
        self.entities.get(&id)
    }

    /// Spawn a new, unstaged entity called `name`.
    pub fn spawn(&mut self, name: &str) -> (id: SceneEntityId)
        requires
            old(self).wf(),
            old(self).next_id() < u64::MAX,
        ensures
            final(self).wf(),
            id == old(self).next_id(),
            final(self).next_id() == old(self).next_id() + 1,
            !old(self).entities().contains_key(id),
            final(self).entities().dom() == old(self).entities().dom().insert(id),
            final(self).entities().remove(id) == old(self).entities(),
            spawned(final(self).entities()[id], id, name@, false),
    {
        self.spawn_staged(name, false)
    }

    /// Spawn a new entity called `name`, marked staged or not.
    pub fn spawn_staged(&mut self, name: &str, staged: bool) -> (id: SceneEntityId)
        requires
            old(self).wf(),
            old(self).next_id() < u64::MAX,
        ensures
            final(self).wf(),
            id == old(self).next_id(),
            final(self).next_id() == old(self).next_id() + 1,
            !old(self).entities().contains_key(id),
            final(self).entities().dom() == old(self).entities().dom().insert(id),
            final(self).entities().remove(id) == old(self).entities(),
            spawned(final(self).entities()[id], id, name@, staged),
    {
        let id = self.next_id;
        self.next_id = self.next_id + 1;
        let e = Entity {
            id,
            name: name.to_string(),
            parent: None,
            children: Vec::new(),
            components: Vec::new(),
            active: true,
            staged,
            prefab_source: None,
        };
        self.entities.insert(id, e);
        assert(self.entities@.remove(id) =~= old(self).entities@);
        id
    }

    /// Record `parent` as the parent of `child`, and `child` among the
    /// children of `parent` (once), for those of the two that exist.
    pub fn set_parent(&mut self, child: SceneEntityId, parent: SceneEntityId)
        requires
            old(self).wf(),
        ensures
            final(self).wf(),
            final(self).next_id() == old(self).next_id(),
            final(self).entities().dom() == old(self).entities().dom(),
            forall|k: u64| k != child && k != parent ==> #[trigger] final(self).entities().contains_key(k)
                ==> final(self).entities()[k] == old(self).entities()[k],
            final(self).entities().contains_key(child) ==> final(self).entities()[child].parent == Some(parent),
            final(self).entities().contains_key(parent) ==> final(self).entities()[parent].children@.contains(child),
            final(self).entities().contains_key(parent) && child != parent ==> final(self).entities()[parent].parent
                == old(self).entities()[parent].parent,
            final(self).entities().contains_key(parent) ==> final(self).entities()[parent].children@ == (
                if old(self).entities()[parent].children@.contains(child) {
                    old(self).entities()[parent].children@
                } else {
                    old(self).entities()[parent].children@.push(child)
                }),
            final(self).entities().contains_key(child) && child != parent ==> final(self).entities()[child].children
                == old(self).entities()[child].children,
            forall|k: u64| #[trigger] final(self).entities().contains_key(k) ==> {
                let e = final(self).entities()[k];
                let o = old(self).entities()[k];
                &&& e.id == o.id
                &&& e.name == o.name
                &&& e.components == o.components
                &&& e.active == o.active
                &&& e.staged == o.staged
                &&& e.prefab_source == o.prefab_source
            },
    {
        if let Some(mut e) = self.entities.remove(&child) {
            e.parent = Some(parent);
            self.entities.insert(child, e);
        }
        let ghost mid = self.entities@;
        if let Some(mut p) = self.entities.remove(&parent) {
            let mut found = false;
            let mut i: usize = 0;
            while i < p.children.len()
                invariant
                    i <= p.children@.len(),
                    found == p.children@.take(i as int).contains(child),
                decreases p.children@.len() - i,
            {
                proof {
                    assert(p.children@.take(i + 1) =~= p.children@.take(i as int).push(p.children@[i as int]));
                    lemma_push_contains(p.children@.take(i as int), p.children@[i as int], child);
                }
                if p.children[i] == child {
                    found = true;
                }
                i = i + 1;
            }
            assert(p.children@.take(p.children@.len() as int) =~= p.children@);
            if !found {
                p.children.push(child);
                assert(p.children@.contains(child)) by {
                    assert(p.children@[p.children@.len() - 1] == child);
                }
            }
            self.entities.insert(parent, p);
        }
        assert(self.entities@.dom() =~= old(self).entities@.dom());
    }

    /// Add a component to an entity (nothing happens for an unknown id).
    pub fn add_component(&mut self, id: SceneEntityId, component: C)
        requires
            old(self).wf(),
        ensures
            final(self).wf(),
            final(self).next_id() == old(self).next_id(),
            final(self).entities().dom() == old(self).entities().dom(),
            forall|k: u64| k != id ==> #[trigger] final(self).entities().contains_key(k)
                ==> final(self).entities()[k] == old(self).entities()[k],
            old(self).entities().contains_key(id) ==> final(self).entities()[id].components@
                == old(self).entities()[id].components@.push(component),
            old(self).entities().contains_key(id) ==> final(self).entities()[id].children == old(self).entities()[id].children
                && final(self).entities()[id].parent == old(self).entities()[id].parent,
    {
        if let Some(mut e) = self.entities.remove(&id) {
            e.components.push(component);
            self.entities.insert(id, e);
        }
        assert(self.entities@.dom() =~= old(self).entities@.dom());
    }

    /// Remove an entity; its parent forgets it as a child, and its listed
    /// children lose their parent.
    pub fn remove_entity(&mut self, id: SceneEntityId)
        requires
            old(self).wf(),
        ensures
            final(self).wf(),
            final(self).next_id() == old(self).next_id(),
            removed_rel(old(self).entities(), final(self).entities(), id),
    {
        if let Some(entity) = self.entities.remove(&id) {
            let ghost removed = self.entities@;
            if let Some(parent_id) = entity.parent {
                if let Some(mut parent) = self.entities.remove(&parent_id) {
                    let mut kept: Vec<u64> = Vec::new();
                    let mut i: usize = 0;
                    let ghost pred = other_than(id);
                    while i < parent.children.len()
                        invariant
                            i <= parent.children@.len(),
                            pred == other_than(id),
                            kept@ == parent.children@.take(i as int).filter(pred),
                        decreases parent.children@.len() - i,
                    {
                        proof {
                            reveal_with_fuel(Seq::<_>::filter, 1);
                            assert(parent.children@.take(i + 1).drop_last() =~= parent.children@.take(i as int));
                        }
                        let c = parent.children[i];
                        if c != id {
                            kept.push(c);
                        }
                        i = i + 1;
                    }
                    assert(parent.children@.take(parent.children@.len() as int) =~= parent.children@);
                    parent.children = kept;
                    self.entities.insert(parent_id, parent);
                }
            }
            let ghost after_parent = self.entities@;
            proof {
                assert forall|k: u64| #[trigger] after_parent.contains_key(k) implies {
                    let b = old(self).entities@[k];
                    let a = after_parent[k];
                    &&& same_fields(a, b)
                    &&& a.parent == b.parent
                    &&& a.children@ =~= (if entity.parent == Some(k) { b.children@.filter(other_than(id)) } else { b.children@ })
                } by {
                    assert(old(self).entities@.contains_key(k));
                }
            }
            let mut j: usize = 0;
            while j < entity.children.len()
                invariant
                    j <= entity.children@.len(),
                    self.entities@.dom() == after_parent.dom(),
                    self.next_id == old(self).next_id,
                    self.wf(),
                    forall|k: u64| #[trigger] self.entities@.contains_key(k) ==> {
                        let e = self.entities@[k];
                        let a = after_parent[k];
                        &&& e.children == a.children
                        &&& same_fields(e, a)
                        &&& e.parent == (if entity.children@.take(j as int).contains(k) { None } else { a.parent })
                    },
                decreases entity.children@.len() - j,
            {
                let child_id = entity.children[j];
                let ghost before = self.entities@;
                if let Some(mut child) = self.entities.remove(&child_id) {
                    child.parent = None;
                    self.entities.insert(child_id, child);
                }
                proof {
                    assert(entity.children@.take(j + 1) =~= entity.children@.take(j as int).push(child_id));
                    assert forall|k: u64| #[trigger] entity.children@.take(j + 1).contains(k) == (entity.children@.take(j as int).contains(k) || k == child_id) by {
                        lemma_push_contains(entity.children@.take(j as int), child_id, k);
                    }
                    assert forall|k: u64| #[trigger] self.entities@.contains_key(k) implies {
                        let e = self.entities@[k];
                        let a = after_parent[k];
                        &&& e.children == a.children
                        &&& same_fields(e, a)
                        &&& e.parent == (if entity.children@.take(j + 1).contains(k) { None } else { a.parent })
                    } by {
                        assert(before.contains_key(k));
                        assert(entity.children@.take(j + 1).contains(k) == (entity.children@.take(j as int).contains(k) || k == child_id));
                    }
                    assert(self.entities@.dom() =~= after_parent.dom());
                }
                j = j + 1;
            }
            proof {
                assert(entity.children@.take(entity.children@.len() as int) =~= entity.children@);
                assert(after_parent.dom() =~= old(self).entities@.dom().remove(id));
                assert forall|k: u64| #[trigger] self.entities@.contains_key(k) implies {
                    let o = old(self).entities@[id];
                    let e = self.entities@[k];
                    let b = old(self).entities@[k];
                    &&& e.children@ =~= (if o.parent == Some(k) { b.children@.filter(other_than(id)) } else { b.children@ })
                    &&& e.parent == (if o.children@.contains(k) { None } else { b.parent })
                    &&& same_fields(e, b)
                } by {
                    assert(after_parent.contains_key(k));
                }
            }
        } else {
            assert(self.entities@ =~= old(self).entities@);
        }
    }
}

/// Why an edit of a scene was refused.
#[derive(Clone, Copy, Debug, PartialEq, Eq, Structural)]
pub enum SceneError {
    /// No entity has the given id.
    EntityNotFound,
    /// The entity has no component at the given position.
    ComponentIndexOutOfRange,
    /// The entity has no component of the requested kind.
    ComponentNotFound,
}

impl<C> Scene<C> {
    /// Spawn an entity called `name` (staged or not) and, when `parent_id`
    /// is given, make it that entity's child.
    pub fn create_entity(&mut self, name: &str, staged: bool, parent_id: Option<SceneEntityId>) -> (id: SceneEntityId)
        requires
            old(self).wf(),
            old(self).next_id() < u64::MAX,
        ensures
            final(self).wf(),
            id == old(self).next_id(),
            final(self).next_id() == old(self).next_id() + 1,
            final(self).entities().dom() == old(self).entities().dom().insert(id),
            final(self).entities()[id].name@ == name@,
            final(self).entities()[id].staged == staged,
            final(self).entities()[id].parent == parent_id,
            final(self).entities()[id].components@.len() == 0,
            parent_id is None ==> final(self).entities().remove(id) == old(self).entities(),
            parent_id matches Some(p) ==> (old(self).entities().contains_key(p) ==> final(self).entities()[p].children@
                == (if old(self).entities()[p].children@.contains(id) { old(self).entities()[p].children@ } else { old(self).entities()[p].children@.push(id) })),
            parent_id matches Some(p) ==> (old(self).entities().contains_key(p) ==> same_fields(final(self).entities()[p], old(self).entities()[p])
                && final(self).entities()[p].parent == old(self).entities()[p].parent),
            forall|k: u64| k != id && parent_id != Some(k) && #[trigger] old(self).entities().contains_key(k)
                ==> final(self).entities()[k] == old(self).entities()[k],
            final(self).entities()[id].id == id,
            final(self).entities()[id].active,
            final(self).entities()[id].prefab_source is None,
            parent_id != Some(id) ==> final(self).entities()[id].children@.len() == 0,
    {
        let id = self.spawn_staged(name, staged);
        if let Some(p) = parent_id {
            self.set_parent(id, p);
            assert(self.entities().contains_key(id));
        }
        id
    }

    /// Mark an entity staged or not; `false` when there is no such entity.
    pub fn set_entity_staged(&mut self, id: SceneEntityId, staged: bool) -> (found: bool)
        requires
            old(self).wf(),
        ensures
            final(self).wf(),
            found == old(self).entities().contains_key(id),
            final(self).next_id() == old(self).next_id(),
            found ==> final(self).entities() == old(self).entities().insert(id, (Entity { staged, ..old(self).entities()[id] })),
            !found ==> final(self).entities() == old(self).entities(),
    {
        match self.entities.remove(&id) {
            Some(mut e) => {
                e.staged = staged;
                self.entities.insert(id, e);
                assert(self.entities@ =~= old(self).entities@.insert(id, Entity { staged, ..old(self).entities@[id] }));
                true
            },
            None => {
                assert(self.entities@ =~= old(self).entities@);
                false
            },
        }
    }

    /// Rename an entity; `false` when there is no such entity.
    pub fn rename_entity(&mut self, id: SceneEntityId, name: String) -> (found: bool)
        requires
            old(self).wf(),
        ensures
            final(self).wf(),
            found == old(self).entities().contains_key(id),
            final(self).next_id() == old(self).next_id(),
            found ==> final(self).entities() == old(self).entities().insert(id, (Entity { name, ..old(self).entities()[id] })),
            !found ==> final(self).entities() == old(self).entities(),
    {
        match self.entities.remove(&id) {
            Some(mut e) => {
                e.name = name;
                self.entities.insert(id, e);
                assert(self.entities@ =~= old(self).entities@.insert(id, Entity { name, ..old(self).entities@[id] }));
                true
            },
            None => {
                assert(self.entities@ =~= old(self).entities@);
                false
            },
        }
    }

    /// Clear the staged flag of each listed entity that exists.
    pub fn commit_staged(&mut self, ids: &[SceneEntityId])
        requires
            old(self).wf(),
        ensures
            final(self).wf(),
            final(self).next_id() == old(self).next_id(),
            final(self).entities().dom() == old(self).entities().dom(),
            forall|k: u64| #[trigger] final(self).entities().contains_key(k) ==> final(self).entities()[k] == (
                if ids@.contains(k) { (Entity { staged: false, ..old(self).entities()[k] }) } else { old(self).entities()[k] }),
    {
        let mut i: usize = 0;
        while i < ids.len()
            invariant
                self.wf(),
                self.next_id() == old(self).next_id(),
                i <= ids@.len(),
                self.entities().dom() == old(self).entities().dom(),
                forall|k: u64| #[trigger] self.entities().contains_key(k) ==> self.entities()[k] == (
                    if ids@.take(i as int).contains(k) { (Entity { staged: false, ..old(self).entities()[k] }) } else { old(self).entities()[k] }),
            decreases ids@.len() - i,
        {
            let id = ids[i];
            let ghost before = self.entities();
            self.set_entity_staged(id, false);
            proof {
                assert forall|k: u64| #[trigger] ids@.take(i + 1).contains(k) == (ids@.take(i as int).contains(k) || k == id) by {
                    assert(ids@.take(i + 1) =~= ids@.take(i as int).push(id));
                    lemma_push_contains(ids@.take(i as int), id, k);
                }
            }
            i = i + 1;
        }
        assert(ids@.take(ids@.len() as int) =~= ids@);
    }

    /// Remove each listed entity that exists (see `remove_entity`).
    pub fn revert_staged(&mut self, ids: &[SceneEntityId])
        requires
            old(self).wf(),
        ensures
            final(self).wf(),
            final(self).next_id() == old(self).next_id(),
            forall|k: u64| #[trigger] final(self).entities().contains_key(k) == (old(self).entities().contains_key(k) && !ids@.contains(k)),
            forall|k: u64| #[trigger] final(self).entities().contains_key(k) ==> same_fields(final(self).entities()[k], old(self).entities()[k]),
            exists|ms: Seq<Map<u64, Entity<C>>>| {
                &&& ms.len() == ids@.len() + 1
                &&& ms[0] == old(self).entities()
                &&& ms.last() == final(self).entities()
                &&& forall|j: int| 0 <= j < ids@.len() ==> removed_rel(#[trigger] ms[j], ms[j + 1], ids@[j])
            },
    {
        let mut i: usize = 0;
        let ghost mut ms: Seq<Map<u64, Entity<C>>> = seq![old(self).entities()];
        while i < ids.len()
            invariant
                self.wf(),
                self.next_id() == old(self).next_id(),
                i <= ids@.len(),
                forall|k: u64| #[trigger] self.entities().contains_key(k) == (old(self).entities().contains_key(k) && !ids@.take(i as int).contains(k)),
                forall|k: u64| #[trigger] self.entities().contains_key(k) ==> same_fields(self.entities()[k], old(self).entities()[k]),
                ms.len() == i + 1,
                ms[0] == old(self).entities(),
                ms.last() == self.entities(),
                forall|j: int| 0 <= j < i ==> removed_rel(#[trigger] ms[j], ms[j + 1], ids@[j]),
            decreases ids@.len() - i,
        {
            let id = ids[i];
            let ghost before = self.entities();
            self.remove_entity(id);
            proof {
                let ms0 = ms;
                ms = ms.push(self.entities());
                assert forall|j: int| 0 <= j < i + 1 implies removed_rel(#[trigger] ms[j], ms[j + 1], ids@[j]) by {
                    if j < i {
                        assert(ms[j] == ms0[j] && ms[j + 1] == ms0[j + 1]);
                    }
                }
                assert forall|k: u64| #[trigger] ids@.take(i + 1).contains(k) == (ids@.take(i as int).contains(k) || k == id) by {
                    assert(ids@.take(i + 1) =~= ids@.take(i as int).push(id));
                    lemma_push_contains(ids@.take(i as int), id, k);
                }
                assert forall|k: u64| #[trigger] self.entities().contains_key(k) implies same_fields(self.entities()[k], old(self).entities()[k]) by {
                    assert(before.contains_key(k));
                }
            }
            i = i + 1;
        }
        assert(ids@.take(ids@.len() as int) =~= ids@);
    }

    /// Delete an entity (see `remove_entity`); `false` when there is no such entity.
    pub fn delete_entity(&mut self, id: SceneEntityId) -> (found: bool)
        requires
            old(self).wf(),
        ensures
            final(self).wf(),
            found == old(self).entities().contains_key(id),
            final(self).next_id() == old(self).next_id(),
            removed_rel(old(self).entities(), final(self).entities(), id),
    {
        if self.entities.contains_key(&id) {
            self.remove_entity(id);
            true
        } else {
            false
        }
    }

    /// Remove the component at position `idx` of an entity.
    pub fn remove_component_by_idx(&mut self, id: SceneEntityId, idx: usize) -> (r: Result<(), SceneError>)
        requires
            old(self).wf(),
        ensures
            final(self).wf(),
            final(self).next_id() == old(self).next_id(),
            !old(self).entities().contains_key(id) ==> r == Err::<(), SceneError>(SceneError::EntityNotFound),
            old(self).entities().contains_key(id) && idx >= old(self).entities()[id].components@.len()
                ==> r == Err::<(), SceneError>(SceneError::ComponentIndexOutOfRange),
            r is Err ==> final(self).entities() == old(self).entities(),
            old(self).entities().contains_key(id) && idx < old(self).entities()[id].components@.len() ==> {
                &&& r is Ok
                &&& final(self).entities().dom() == old(self).entities().dom()
                &&& final(self).entities().remove(id) == old(self).entities().remove(id)
                &&& final(self).entities()[id].components@ == old(self).entities()[id].components@.remove(idx as int)
                &&& final(self).entities()[id].name == old(self).entities()[id].name
                &&& final(self).entities()[id].parent == old(self).entities()[id].parent
                &&& final(self).entities()[id].children == old(self).entities()[id].children
            },
    {
        match self.entities.remove(&id) {
            Some(mut e) => {
                if idx >= e.components.len() {
                    self.entities.insert(id, e);
                    assert(self.entities@ =~= old(self).entities@);
                    return Err(SceneError::ComponentIndexOutOfRange);
                }
                e.components.remove(idx);
                self.entities.insert(id, e);
                assert(self.entities@.dom() =~= old(self).entities@.dom());
                assert(self.entities@.remove(id) =~= old(self).entities@.remove(id));
                Ok(())
            },
            None => {
                assert(self.entities@ =~= old(self).entities@);
                Err(SceneError::EntityNotFound)
            },
        }
    }

    /// Remove every component of entity `id` that `matches` picks (as a
    /// request to remove components of one type does): `ComponentNotFound`
    /// when it picks none, and `EntityNotFound` without such an entity.
    pub fn remove_components_where<F: Fn(&C) -> bool>(&mut self, id: SceneEntityId, matches: F) -> (r: Result<(), SceneError>)
        requires
            old(self).wf(),
            forall|c: &C| #[trigger] call_requires(matches, (c,)),
        ensures
            final(self).wf(),
            final(self).next_id() == old(self).next_id(),
            !old(self).entities().contains_key(id) ==> r == Err::<(), SceneError>(SceneError::EntityNotFound)
                && final(self).entities() == old(self).entities(),
            old(self).entities().contains_key(id) ==> r is Ok || r == Err::<(), SceneError>(SceneError::ComponentNotFound),
            r == Err::<(), SceneError>(SceneError::ComponentNotFound) ==> final(self).entities()[id].components@
                == old(self).entities()[id].components@,
            old(self).entities().contains_key(id) ==> exists|flags: Seq<bool>|
                #![trigger unflagged(old(self).entities()[id].components@, flags)] {
                let before = old(self).entities()[id].components@;
                &&& flags.len() == before.len()
                &&& forall|i: int| 0 <= i < before.len() ==> call_ensures(matches, (&before[i],), #[trigger] flags[i])
                &&& (r is Ok <==> flags.contains(true))
                &&& final(self).entities()[id].components@ == unflagged(before, flags)
            },
            old(self).entities().contains_key(id) ==> {
                &&& final(self).entities().dom() == old(self).entities().dom()
                &&& final(self).entities().remove(id) == old(self).entities().remove(id)
                &&& final(self).entities()[id] == (Entity { components: final(self).entities()[id].components, ..old(self).entities()[id] })
            },
    {
        match self.entities.remove(&id) {
            Some(mut e) => {
                let ghost e0 = e;
                let ghost before = e.components@;
                let ghost mut flags: Seq<bool> = Seq::empty();
                let mut i: usize = 0;
                let mut removed = false;
                while i < e.components.len()
                    invariant
                        forall|c: &C| #[trigger] call_requires(matches, (c,)),
                        flags.len() <= before.len(),
                        i <= e.components@.len(),
                        e.components@ == unflagged(before.take(flags.len() as int), flags) + before.skip(flags.len() as int),
                        i == unflagged(before.take(flags.len() as int), flags).len(),
                        forall|j: int| 0 <= j < flags.len() ==> call_ensures(matches, (&before[j],), #[trigger] flags[j]),
                        removed == flags.contains(true),
                        e == (Entity { components: e.components, ..e0 }),
                    decreases before.len() - flags.len(),
                {
                    let ghost k = flags.len() as int;
                    let ghost done = unflagged(before.take(k), flags);
                    proof {
                        assert(e.components@[i as int] == before[k]);
                        assert(before.take(k + 1).drop_last() =~= before.take(k));
                    }
                    let hit = matches(&e.components[i]);
                    proof {
                        let f2 = flags.push(hit);
                        assert(f2.drop_last() =~= flags);
                        assert(before.take(k + 1)[k] == before[k]);
                        assert forall|x: bool| #[trigger] f2.contains(x) == (flags.contains(x) || x == hit) by {
                            if f2.contains(x) {
                                let j = choose|j: int| 0 <= j < f2.len() && f2[j] == x;
                                if j < flags.len() {
                                    assert(flags[j] == x);
                                }
                            }
                            if flags.contains(x) {
                                let j = choose|j: int| 0 <= j < flags.len() && flags[j] == x;
                                assert(f2[j] == x);
                            }
                            if x == hit {
                                assert(f2[k] == x);
                            }
                        }
                    }
                    if hit {
                        e.components.remove(i);
                        removed = true;
                        proof {
                            flags = flags.push(true);
                            assert(e.components@ =~= done + before.skip(k + 1));
                            assert(unflagged(before.take(k + 1), flags) == done);
                        }
                    } else {
                        proof {
                            flags = flags.push(false);
                            assert(unflagged(before.take(k + 1), flags) == done.push(before[k]));
                            assert(e.components@ =~= done.push(before[k]) + before.skip(k + 1));
                        }
                        i = i + 1;
                    }
                }
                proof {
                    assert(flags.len() == before.len()) by {
                        if flags.len() < before.len() {
                            assert(before.skip(flags.len() as int).len() > 0);
                        }
                    }
                    assert(before.take(before.len() as int) =~= before);
                    assert(before.skip(before.len() as int) =~= Seq::<C>::empty());
                    assert(e.components@ =~= unflagged(before, flags));
                }
                if !removed {
                    proof {
                        lemma_unflagged_none(before, flags);
                    }
                    self.entities.insert(id, e);
                    assert(self.entities@.dom() =~= old(self).entities@.dom());
                    assert(self.entities@.remove(id) =~= old(self).entities@.remove(id));
                    return Err(SceneError::ComponentNotFound);
                }
                self.entities.insert(id, e);
                assert(self.entities@.dom() =~= old(self).entities@.dom());
                assert(self.entities@.remove(id) =~= old(self).entities@.remove(id));
                Ok(())
            },
            None => {
                assert(self.entities@ =~= old(self).entities@);
                Err(SceneError::EntityNotFound)
            },
        }
    }
}

/// With no flag set nothing is dropped.
proof fn lemma_unflagged_none<C>(s: Seq<C>, flags: Seq<bool>)
    requires
        flags.len() == s.len(),
        !flags.contains(true),
    ensures
        unflagged(s, flags) == s,
    decreases s.len(),
{
    if s.len() > 0 {
        let f = flags.drop_last();
        assert(!f.contains(true)) by {
            if f.contains(true) {
                let j = choose|j: int| 0 <= j < f.len() && f[j] == true;
                assert(flags[j] == true);
            }
        }
        assert(!flags[s.len() - 1]) by {
            if flags[s.len() - 1] {
                assert(flags.contains(true));
            }
        }
        lemma_unflagged_none(s.drop_last(), f);
        assert(s.drop_last().push(s.last()) =~= s);
    }
}

/// An element is in `s.push(x)` when it is in `s` or is `x`.
pub proof fn lemma_push_contains<A>(s: Seq<A>, x: A, y: A)
    ensures
        s.push(x).contains(y) == (s.contains(y) || x == y),
{
    if s.contains(y) {
        let i = choose|i: int| 0 <= i < s.len() && s[i] == y;
        assert(s.push(x)[i] == y);
    }
    if x == y {
        assert(s.push(x)[s.len() as int] == y);
    }
    if s.push(x).contains(y) {
        let i = choose|i: int| 0 <= i < s.len() + 1 && s.push(x)[i] == y;
        if i < s.len() {
            assert(s[i] == y);
        }
    }
}

/// `e` is a freshly spawned entity with the given id, name and staging.
/// The elements of `s` whose flag is not set, in order.
pub open spec fn unflagged<C>(s: Seq<C>, flags: Seq<bool>) -> Seq<C>
    decreases s.len(),
{
    if s.len() == 0 {
        Seq::empty()
    } else {
        let rest = unflagged(s.drop_last(), flags.drop_last());
        if flags[s.len() - 1] { rest } else { rest.push(s.last()) }
    }
}

pub open spec fn spawned<C>(e: Entity<C>, id: u64, name: Seq<char>, staged: bool) -> bool {
    &&& e.id == id
    &&& e.name@ == name
    &&& e.parent is None
    &&& e.children@.len() == 0
    &&& e.components@.len() == 0
    &&& e.active
    &&& e.staged == staged
    &&& e.prefab_source is None
}

/// The ids other than `id`.
pub open spec fn other_than(id: u64) -> spec_fn(u64) -> bool {
    |c: u64| c != id
}

/// `e` and `b` agree on everything but their parent and child links.
pub open spec fn same_fields<C>(e: Entity<C>, b: Entity<C>) -> bool {
    &&& e.id == b.id
    &&& e.name == b.name
    &&& e.components == b.components
    &&& e.active == b.active
    &&& e.staged == b.staged
    &&& e.prefab_source == b.prefab_source
}

/// `after` is the entities `before` with entity `id` removed, as
/// `Scene::remove_entity` does: its parent forgets it as a child, its listed
/// children lose their parent, and nothing else changes.
pub open spec fn removed_rel<C>(before: Map<u64, Entity<C>>, after: Map<u64, Entity<C>>, id: u64) -> bool {
    &&& after.dom() =~= before.dom().remove(id)
    &&& before.contains_key(id) ==> forall|k: u64| #[trigger] after.contains_key(k) ==> {
        let o = before[id];
        let e = after[k];
        let b = before[k];
        &&& e.children@ =~= (if o.parent == Some(k) { b.children@.filter(other_than(id)) } else { b.children@ })
        &&& e.parent == (if o.children@.contains(k) { None } else { b.parent })
        &&& same_fields(e, b)
    }
    &&& !before.contains_key(id) ==> after =~= before
}

} // verus!
