//! Entity hierarchy: parent/child relationships recorded in components.
use vstd::prelude::*;
use crate::entities::{Parented, Transform, TRANSFORM_KIND};
use crate::world::{entities_of, of_kind, slot, EntityId, SlotKey, World};

verus! {

/// The parent of `e` as recorded in its linking component (`None` without one).
pub open spec fn parent_in<C: Parented>(w: &World<C>, e: EntityId) -> Option<EntityId> {
    if w.components().contains_key(slot(e, C::link_kind())) {
        w.components()[slot(e, C::link_kind())].parent_of()
    } else {
        None
    }
}

/// The entity reached from `e` by following at most `n` parent links.
pub open spec fn climb<C: Parented>(w: &World<C>, e: EntityId, n: nat) -> EntityId
    decreases n,
{
    if n == 0 {
        e
    } else {
        match parent_in(w, e) {
            Some(p) => climb(w, p, (n - 1) as nat),
            None => e,
        }
    }
}

/// Following parent links from `e` ends at an entity without a parent.
pub open spec fn reaches_root<C: Parented>(w: &World<C>, e: EntityId) -> bool {
    exists|n: nat| parent_in(w, #[trigger] climb(w, e, n)) is None
}

/// The entities whose linking component records `parent` as their parent,
/// in storage order.
pub open spec fn children_in<C: Parented>(w: &World<C>, parent: EntityId) -> Seq<EntityId> {
    entities_of(of_kind(w.component_order(), C::link_kind()).filter(
        |s: SlotKey| w.components()[s].parent_of() == Some(parent),
    ))
}


/// `after` is `before` with the parent of `e` set to `p`: the linking
/// component of `e` gets the new link (a fresh one is made where `e` has
/// none, or where its slot holds a component of another kind), and nothing
/// else changes.
pub open spec fn reparented<C: Parented>(before: World<C>, after: World<C>, e: EntityId, p: Option<EntityId>) -> bool {
    let s = slot(e, C::link_kind());
    &&& after.wf()
    &&& after.alive() == before.alive()
    &&& after.next_id() == before.next_id()
    &&& after.ids_wrapped() == before.ids_wrapped()
    &&& (before.components().contains_key(s) && before.components()[s].kind_of() == C::link_kind()
        ==> after.components() == before.components().insert(s, before.components()[s].with_parent_spec(p)))
    &&& (before.components().contains_key(s) ==> after.component_order() == before.component_order())
    &&& (!before.components().contains_key(s) ==> after.component_order() == before.component_order().push(s))
    &&& after.components().dom() == before.components().dom().insert(s)
    &&& after.components().remove(s) == before.components().remove(s)
    &&& after.components()[s].kind_of() == C::link_kind()
    &&& parent_in(&after, e) == p
    &&& forall|x: EntityId| x != e ==> parent_in(&after, x) == parent_in(&before, x)
}

/// Get the parent of an entity, if it has one.
pub fn get_parent<C: Parented>(world: &World<C>, entity: EntityId) -> (r: Option<EntityId>)
    requires
        world.wf(),
    ensures
        r == parent_in(world, entity),
{
    match world.get(entity, C::link_kind_value()) {
        Some(t) => t.parent(),
        None => None,
    }
}

/// Set the parent of an entity.
///
/// Updates the entity's transform to reference the parent; when the entity
/// has no transform, one is created (at the origin) with that parent.
pub fn set_parent<C: Parented>(world: &mut World<C>, entity: EntityId, parent: Option<EntityId>)
    requires
        old(world).wf(),
    ensures
        reparented(*old(world), *final(world), entity, parent),
{
    let lk = C::link_kind_value();
    let ghost s = slot(entity, lk);
    match world.get_mut(entity, lk) {
        Some(t) => {
            if t.kind() == lk {
                t.set_parent(parent);
            } else {
                *t = C::new_child_of(parent);
            }
        },
        None => {
            let t = C::new_child_of(parent);
            world.insert_slot(entity, lk, t);
        },
    }
    proof {
        assert(world.components().dom() =~= old(world).components().dom().insert(s));
        assert(world.components().remove(s) =~= old(world).components().remove(s));
    }
}

/// Get all children of an entity: the entities whose transform names it as parent.
pub fn get_children<C: Parented>(world: &World<C>, entity: EntityId) -> (r: Vec<EntityId>)
    requires
        world.wf(),
    ensures
        r@ == children_in(world, entity),
{
    let lk = C::link_kind_value();
    let all = world.query(lk);
    let ghost order = of_kind(world.component_order(), lk);
    let ghost pred = |s: SlotKey| world.components()[s].parent_of() == Some(entity);
    let mut out: Vec<EntityId> = Vec::new();
    let mut i: usize = 0;
    while i < all.len()
        invariant
            all@.len() == order.len(),
            order == of_kind(world.component_order(), lk),
            lk == C::link_kind(),
            pred == (|s: SlotKey| world.components()[s].parent_of() == Some(entity)),
            forall|j: int| 0 <= j < all@.len() ==> (#[trigger] all@[j]).0 == order[j].entity
                && *all@[j].1 == world.components()[order[j]],
            i <= all@.len(),
            out@ == entities_of(order.take(i as int).filter(pred)),
        decreases all@.len() - i,
    {
        let (c, t) = all[i];
        let p = t.parent();
        proof {
            reveal_with_fuel(Seq::<_>::filter, 1);
            assert(order.take(i + 1).drop_last() =~= order.take(i as int));
            let f0 = order.take(i as int).filter(pred);
            assert(entities_of(f0.push(order[i as int])) =~= entities_of(f0).push(order[i as int].entity));
        }
        if p == Some(entity) {
            out.push(c);
        }
        i = i + 1;
    }
    proof {
        assert(order.take(order.len() as int) =~= order);
    }
    out
}

/// Once `climb` reaches an entity without a parent it stays there.
proof fn lemma_climb_step<C: Parented>(w: &World<C>, e: EntityId, p: EntityId, n: nat)
    requires
        parent_in(w, e) == Some(p),
    ensures
        climb(w, e, n + 1) == climb(w, p, n),
{
}

/// Get the root entity in the hierarchy (the ancestor with no parent).
pub fn get_root<C: Parented>(world: &World<C>, entity: EntityId) -> (r: EntityId)
    requires
        world.wf(),
        reaches_root(world, entity),
    ensures
        parent_in(world, r) is None,
        exists|n: nat| climb(world, entity, n) == r,
{
    let ghost n0: nat = choose|n: nat| parent_in(world, #[trigger] climb(world, entity, n)) is None;
    let ghost mut steps: nat = 0;
    let ghost mut left: nat = n0;
    let mut current = entity;
    loop
        invariant
            world.wf(),
            climb(world, entity, steps) == current,
            parent_in(world, climb(world, current, left)) is None,
            forall|k: nat| #[trigger] climb(world, entity, k + steps) == climb(world, current, k),
        decreases left,
    {
        match get_parent(world, current) {
            Some(parent) => {
                proof {
                    if left == 0 {
                        assert(climb(world, current, 0) == current);
                        assert(false);
                    }
                    assert forall|k: nat| #[trigger] climb(world, entity, k + (steps + 1)) == climb(world, parent, k) by {
                        assert(climb(world, entity, (k + 1) + steps) == climb(world, current, k + 1));
                        lemma_climb_step(world, current, parent, k);
                    }
                    lemma_climb_step(world, current, parent, (left - 1) as nat);
                    lemma_climb_step(world, current, parent, 0);
                    assert(climb(world, entity, 1 + steps) == climb(world, current, 1));
                    assert(climb(world, entity, (steps + 1) as nat) == parent);
                    steps = steps + 1;
                    left = (left - 1) as nat;
                }
                current = parent;
            },
            None => {
                return current;
            },
        }
    }
}

/// The spatial parts met when following parent links from `e` (at most `n`
/// of them), starting with `e`'s own; the walk stops at an entity without a
/// transform or without a parent.
pub open spec fn chain_spec<S: Default>(w: &World<Transform<S>>, e: EntityId, n: nat) -> Seq<S>
    decreases n,
{
    if !w.components().contains_key(slot(e, TRANSFORM_KIND)) {
        Seq::empty()
    } else {
        let t = w.components()[slot(e, TRANSFORM_KIND)];
        match t.parent {
            Some(p) => if n == 0 { seq![t.spatial] } else { seq![t.spatial] + chain_spec(w, p, (n - 1) as nat) },
            None => seq![t.spatial],
        }
    }
}

/// Any number of links that reaches the root gives the same chain.
proof fn lemma_chain_root<S: Default>(w: &World<Transform<S>>, e: EntityId, n: nat, m: nat)
    requires
        parent_in(w, climb(w, e, n)) is None,
        parent_in(w, climb(w, e, m)) is None,
    ensures
        chain_spec(w, e, n) == chain_spec(w, e, m),
    decreases n,
{
    if w.components().contains_key(slot(e, TRANSFORM_KIND)) {
        match w.components()[slot(e, TRANSFORM_KIND)].parent {
            Some(p) => {
                assert(n > 0 && m > 0);
                lemma_chain_root(w, p, (n - 1) as nat, (m - 1) as nat);
            },
            None => {},
        }
    }
}

/// The spatial parts of `entity` and of its ancestors, nearest first, up to
/// the first ancestor without a transform: what world position, rotation and
/// scale are composed from.
pub fn spatial_chain<S: Copy + Default>(world: &World<Transform<S>>, entity: EntityId) -> (r: Vec<S>)
    requires
        world.wf(),
        reaches_root(world, entity),
    ensures
        forall|n: nat| parent_in(world, #[trigger] climb(world, entity, n)) is None ==> r@ == chain_spec(world, entity, n),
{
    let ghost n0: nat = choose|n: nat| parent_in(world, #[trigger] climb(world, entity, n)) is None;
    let ghost mut steps: nat = 0;
    let ghost mut left: nat = n0;
    let mut r: Vec<S> = Vec::new();
    let mut current = entity;
    loop
        invariant
            world.wf(),
            climb(world, entity, steps) == current,
            steps + left == n0,
            parent_in(world, climb(world, entity, n0)) is None,
            parent_in(world, climb(world, current, left)) is None,
            forall|k: nat| #[trigger] climb(world, entity, k + steps) == climb(world, current, k),
            r@ + chain_spec(world, current, left) == chain_spec(world, entity, n0),
        decreases left,
    {
        match world.get(current, TRANSFORM_KIND) {
            None => {
                proof {
                    assert(chain_spec(world, current, left) =~= Seq::<S>::empty());
                    assert(r@ + Seq::<S>::empty() =~= r@);
                    assert forall|n: nat| parent_in(world, #[trigger] climb(world, entity, n)) is None
                        implies r@ == chain_spec(world, entity, n) by {
                        lemma_chain_root(world, entity, n, n0);
                    }
                }
                return r;
            },
            Some(t) => {
                let spatial = t.spatial;
                let parent = t.parent;
                r.push(spatial);
                match parent {
                    Some(p) => {
                        proof {
                            if left == 0 {
                                assert(climb(world, current, 0) == current);
                                assert(false);
                            }
                            assert(chain_spec(world, current, left) == seq![spatial] + chain_spec(world, p, (left - 1) as nat));
                            assert(r@ + chain_spec(world, p, (left - 1) as nat) =~= (r@.drop_last()
                                + chain_spec(world, current, left)));
                            assert forall|k: nat| #[trigger] climb(world, entity, k + (steps + 1)) == climb(world, p, k) by {
                                assert(climb(world, entity, (k + 1) + steps) == climb(world, current, k + 1));
                                lemma_climb_step(world, current, p, k);
                            }
                            lemma_climb_step(world, current, p, (left - 1) as nat);
                            lemma_climb_step(world, current, p, 0);
                            assert(climb(world, entity, 1 + steps) == climb(world, current, 1));
                            assert(climb(world, entity, (steps + 1) as nat) == p);
                            steps = steps + 1;
                            left = (left - 1) as nat;
                        }
                        current = p;
                    },
                    None => {
                        proof {
                            assert(chain_spec(world, current, left) == seq![spatial]);
                            assert(r@ =~= r@.drop_last() + chain_spec(world, current, left));
                            assert forall|n: nat| parent_in(world, #[trigger] climb(world, entity, n)) is None
                                implies r@ == chain_spec(world, entity, n) by {
                                lemma_chain_root(world, entity, n, n0);
                            }
                        }
                        return r;
                    },
                }
            },
        }
    }
}

/// Reparent an entity to a new parent (`None` makes it a root entity).
pub fn reparent<C: Parented>(world: &mut World<C>, entity: EntityId, new_parent: Option<EntityId>)
    requires
        old(world).wf(),
    ensures
        reparented(*old(world), *final(world), entity, new_parent),
{
    set_parent(world, entity, new_parent);
}

/// The entities picked from the slots of `order` of kind `lk` that satisfy
/// `pred` are those whose slot of that kind is in `order` and satisfies
/// `pred`; without repeated slots none is picked twice.
proof fn lemma_children_seq(order: Seq<SlotKey>, lk: u32, pred: spec_fn(SlotKey) -> bool)
    ensures
        forall|e: EntityId| #[trigger] entities_of(of_kind(order, lk).filter(pred)).contains(e)
            <==> (order.contains(slot(e, lk)) && pred(slot(e, lk))),
        order.no_duplicates() ==> entities_of(of_kind(order, lk).filter(pred)).no_duplicates(),
    decreases order.len(),
{
    if order.len() == 0 {
        assert(of_kind(order, lk).filter(pred) =~= Seq::<SlotKey>::empty()) by {
            reveal_with_fuel(Seq::<_>::filter, 1);
        }
        assert(entities_of(of_kind(order, lk).filter(pred)) =~= Seq::<EntityId>::empty());
    } else {
        let rest = order.drop_last();
        let last = order.last();
        lemma_children_seq(rest, lk, pred);
        let fr = of_kind(rest, lk).filter(pred);
        let mr = entities_of(fr);
        let f = of_kind(order, lk).filter(pred);
        let m = entities_of(f);
        let picked = last.kind == lk && pred(last);
        if last.kind == lk {
            assert(of_kind(order, lk) =~= of_kind(rest, lk).push(last));
            of_kind(rest, lk).lemma_filter_push(last, pred);
        } else {
            assert(of_kind(order, lk) =~= of_kind(rest, lk));
        }
        if picked {
            assert(f == fr.push(last));
            assert(m =~= mr.push(last.entity));
        } else {
            assert(f == fr);
        }
        assert forall|e: EntityId| #[trigger] m.contains(e) <==> (order.contains(slot(e, lk)) && pred(slot(e, lk))) by {
            if picked && e == last.entity {
                assert(slot(e, lk) == last);
                assert(m[m.len() - 1] == e);
                assert(order[order.len() - 1] == last);
            }
            if mr.contains(e) {
                let j = choose|j: int| 0 <= j < mr.len() && #[trigger] mr[j] == e;
                if picked {
                    assert(m[j] == e);
                }
                let a = choose|a: int| 0 <= a < rest.len() && #[trigger] rest[a] == slot(e, lk);
                assert(order[a] == slot(e, lk));
            }
            if m.contains(e) && !(picked && e == last.entity) {
                let j = choose|j: int| 0 <= j < m.len() && #[trigger] m[j] == e;
                if picked {
                    assert(j < mr.len());
                    assert(mr[j] == e);
                }
                assert(mr.contains(e));
            }
            if order.contains(slot(e, lk)) && pred(slot(e, lk)) && !(picked && e == last.entity) {
                let a = choose|a: int| 0 <= a < order.len() && #[trigger] order[a] == slot(e, lk);
                if a == order.len() - 1 {
                    assert(last == slot(e, lk));
                }
                assert(rest[a] == slot(e, lk));
                assert(mr.contains(e));
                let j = choose|j: int| 0 <= j < mr.len() && #[trigger] mr[j] == e;
                if picked {
                    assert(m[j] == e);
                }
            }
        }
        if order.no_duplicates() {
            assert(rest.no_duplicates()) by {
                assert forall|a: int, b: int| 0 <= a < rest.len() && 0 <= b < rest.len() && a != b
                    implies rest[a] != rest[b] by {
                    assert(rest[a] == order[a] && rest[b] == order[b]);
                }
            }
            if picked {
                assert(!mr.contains(last.entity)) by {
                    if mr.contains(last.entity) {
                        assert(slot(last.entity, lk) == last);
                        let a = choose|a: int| 0 <= a < rest.len() && #[trigger] rest[a] == last;
                        assert(order[a] == order[order.len() - 1]);
                    }
                }
                assert forall|a: int, b: int| 0 <= a < m.len() && 0 <= b < m.len() && a != b
                    implies m[a] != m[b] by {
                    if a < mr.len() && b < mr.len() {
                        assert(m[a] == mr[a] && m[b] == mr[b]);
                    } else if a < mr.len() {
                        assert(m[a] == mr[a]);
                    } else if b < mr.len() {
                        assert(m[b] == mr[b]);
                    }
                }
            }
        }
    }
}

/// The children of `parent` are exactly the entities whose transform names
/// it as their parent, each listed once.
pub proof fn law_children_in<C: Parented>(w: &World<C>, parent: EntityId)
    requires
        w.wf(),
    ensures
        children_in(w, parent).no_duplicates(),
        forall|e: EntityId| #[trigger] children_in(w, parent).contains(e) <==> parent_in(w, e) == Some(parent),
{
    let lk = C::link_kind();
    let pred = |s: SlotKey| w.components()[s].parent_of() == Some(parent);
    w.lemma_wf();
    lemma_children_seq(w.component_order(), lk, pred);
    assert forall|e: EntityId| #[trigger] children_in(w, parent).contains(e) <==> parent_in(w, e) == Some(parent) by {
        assert(w.component_order().to_set().contains(slot(e, lk)) <==> w.component_order().contains(slot(e, lk)));
    }
}

/// Following parent links from `e` never meets an entity twice while the
/// links go on.
pub open spec fn acyclic_from<C: Parented>(w: &World<C>, e: EntityId) -> bool {
    forall|i: nat, j: nat| #![trigger climb(w, e, i), climb(w, e, j)]
        i < j && (forall|k: nat| k < j ==> #[trigger] parent_in(w, climb(w, e, k)) is Some)
        ==> climb(w, e, i) != climb(w, e, j)
}

/// When the parent links from `e` form no cycle, following them ends at an
/// entity without a parent, as `get_root` and `spatial_chain` ask.
pub proof fn law_acyclic_reaches_root<C: Parented>(w: &World<C>, e: EntityId)
    requires
        w.wf(),
        acyclic_from(w, e),
    ensures
        reaches_root(w, e),
{
    if !reaches_root(w, e) {
        let lk = C::link_kind();
        let order = w.component_order();
        let n = order.len();
        w.lemma_wf();
        assert forall|k: nat| #[trigger] parent_in(w, climb(w, e, k)) is Some by {
            if parent_in(w, climb(w, e, k)) is None {
                assert(reaches_root(w, e));
            }
        }
        let s = Seq::new(n + 1, |i: int| slot(climb(w, e, i as nat), lk));
        assert forall|i: int| 0 <= i < s.len() implies #[trigger] w.components().contains_key(s[i]) by {
            assert(parent_in(w, climb(w, e, i as nat)) is Some);
        }
        assert(s.no_duplicates()) by {
            assert forall|a: int, b: int| 0 <= a < s.len() && 0 <= b < s.len() && a != b implies s[a] != s[b] by {
                let (i, j) = if a < b { (a as nat, b as nat) } else { (b as nat, a as nat) };
                assert(forall|k: nat| k < j ==> #[trigger] parent_in(w, climb(w, e, k)) is Some);
                assert(climb(w, e, i) != climb(w, e, j));
            }
        }
        s.unique_seq_to_set();
        order.unique_seq_to_set();
        assert(s.to_set().subset_of(w.components().dom()));
        vstd::set_lib::lemma_len_subset(s.to_set(), w.components().dom());
        assert(false);
    }
}

} // verus!
