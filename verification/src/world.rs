//! Entity/world container with component storage keyed by entity and kind.
use vstd::prelude::*;

verus! {

/// Unique identifier for an entity in the world.
#[derive(Clone, Copy, Debug, PartialEq, Eq, Structural, Hash, PartialOrd, Ord)]
pub struct EntityId(pub u32);

impl EntityId {
    /// Get the underlying integer ID (useful for debugging or serialization).
    pub fn to_u32(self) -> (r: u32)
        ensures
            r == self.0,
    {
        self.0
    }
}

/// With no duplicates in `s`, the index chosen for an element is its only position.
pub proof fn lemma_index_of_unique<A>(s: Seq<A>, i: int)
    requires
        s.no_duplicates(),
        0 <= i < s.len(),
    ensures
        s.index_of(s[i]) == i,
{
    let k = s[i];
    assert(s[i] == k);
    let j = s.index_of(k);
    assert(0 <= j < s.len() && s[j] == k);
}

/// Keys of a `Table`: plain values compared field by field.
pub trait TableKey: Copy {
    fn same(&self, other: &Self) -> (b: bool)
        ensures
            b == (*self == *other),
    ;
}

impl TableKey for EntityId {
    fn same(&self, other: &Self) -> (b: bool) {
        self.0 == other.0
    }
}

/// Where a component is stored: its entity and its kind.
#[derive(Clone, Copy, Debug, PartialEq, Eq, Structural, Hash)]
pub struct SlotKey {
    pub entity: EntityId,
    pub kind: u32,
}

impl TableKey for SlotKey {
    fn same(&self, other: &Self) -> (b: bool) {
        self.entity.0 == other.entity.0 && self.kind == other.kind
    }
}

/// The slot of the component of kind `kind` of entity `e`.
pub open spec fn slot(e: EntityId, kind: u32) -> SlotKey {
    SlotKey { entity: e, kind }
}

/// Component types: each value names its kind, and an entity holds at most
/// one component of each kind.
pub trait Kinded {
    /// The kind of this component. A type that holds a single kind of
    /// component may keep the default, kind 0.
    open spec fn kind_of(&self) -> u32 {
        0
    }

    fn kind(&self) -> (k: u32)
        ensures
            k == self.kind_of(),
    ;
}

/// A map from keys to values, kept as two parallel vectors in insertion order.
pub struct Table<K, V> {
    keys: Vec<K>,
    vals: Vec<V>,
}

impl<K: TableKey, V> Table<K, V> {
    pub closed spec fn wf(&self) -> bool {
        &&& self.keys@.len() == self.vals@.len()
        &&& self.keys@.no_duplicates()
    }

    /// The entities that have an entry, in storage order.
    pub closed spec fn key_seq(&self) -> Seq<K> {
        self.keys@
    }

    /// The table as a map from entity to value.
    pub closed spec fn entries(&self) -> Map<K, V> {
        Map::new(|k: K| self.keys@.contains(k), |k: K| self.vals@[self.keys@.index_of(k)])
    }

    pub proof fn lemma_key_seq(&self)
        requires
            self.wf(),
        ensures
            self.key_seq().no_duplicates(),
            self.key_seq().to_set() == self.entries().dom(),
            forall|i: int| 0 <= i < self.key_seq().len() ==> self.entries().contains_key(#[trigger] self.key_seq()[i]),
    {
        assert(self.key_seq().to_set() =~= self.entries().dom());
        assert forall|i: int| 0 <= i < self.key_seq().len() implies self.entries().contains_key(#[trigger] self.key_seq()[i]) by {
            assert(self.keys@.contains(self.keys@[i]));
        }
    }

    pub fn new() -> (t: Self)
        ensures
            t.wf(),
            t.entries() == Map::<K, V>::empty(),
            t.key_seq() == Seq::<K>::empty(),
    {
        let t = Table { keys: Vec::new(), vals: Vec::new() };
        assert(t.entries() =~= Map::<K, V>::empty());
        t
    }

    pub fn len(&self) -> (n: usize)
        requires
            self.wf(),
        ensures
            n == self.entries().len(),
            n == self.key_seq().len(),
    {
        proof {
            self.lemma_key_seq();
            self.keys@.unique_seq_to_set();
        }
        self.keys.len()
    }

    /// Position of `k` in storage, if it has an entry.
    fn find(&self, k: K) -> (r: Option<usize>)
        requires
            self.wf(),
        ensures
            match r {
                Some(i) => i < self.keys@.len() && self.keys@[i as int] == k && self.keys@.index_of(k) == i,
                None => !self.keys@.contains(k),
            },
    {
        let mut i: usize = 0;
        while i < self.keys.len()
            invariant
                self.wf(),
                i <= self.keys@.len(),
                forall|j: int| 0 <= j < i ==> self.keys@[j] != k,
            decreases self.keys@.len() - i,
        {
            if self.keys[i].same(&k) {
                proof {
                    lemma_index_of_unique(self.keys@, i as int);
                }
                return Some(i);
            }
            i = i + 1;
        }
        None
    }

    pub fn contains_key(&self, k: K) -> (b: bool)
        requires
            self.wf(),
        ensures
            b == self.entries().contains_key(k),
    {
        self.find(k).is_some()
    }

    pub fn get(&self, k: K) -> (r: Option<&V>)
        requires
            self.wf(),
        ensures
            match r {
                Some(v) => self.entries().contains_key(k) && *v == self.entries()[k],
                None => !self.entries().contains_key(k),
            },
    {
        match self.find(k) {
            Some(i) => Some(&self.vals[i]),
            None => None,
        }
    }

    pub fn get_mut(&mut self, k: K) -> (r: Option<&mut V>)
        requires
            old(self).wf(),
        ensures
            match r {
                Some(v) => {
                    &&& old(self).entries().contains_key(k)
                    &&& *v == old(self).entries()[k]
                    &&& final(self).wf()
                    &&& final(self).entries() == old(self).entries().insert(k, *final(v))
                    &&& final(self).key_seq() == old(self).key_seq()
                },
                None => {
                    &&& !old(self).entries().contains_key(k)
                    &&& *final(self) == *old(self)
                },
            },
    {
        match self.find(k) {
            Some(i) => {
                Some(&mut self.vals[i])
            },
            None => None,
        }
    }

    /// Insert or overwrite the entry of `k`.
    pub fn insert(&mut self, k: K, v: V)
        requires
            old(self).wf(),
        ensures
            final(self).wf(),
            final(self).entries() == old(self).entries().insert(k, v),
            old(self).entries().contains_key(k) ==> final(self).key_seq() == old(self).key_seq(),
            !old(self).entries().contains_key(k) ==> final(self).key_seq() == old(self).key_seq().push(k),
    {
        match self.find(k) {
            Some(i) => {
                self.vals.set(i, v);
                assert(self.entries() =~= old(self).entries().insert(k, v));
            },
            None => {
                let ghost ok = self.keys@;
                self.keys.push(k);
                self.vals.push(v);
                proof {
                    let nk = self.keys@;
                    assert(nk.no_duplicates());
                    assert forall|x: K| #[trigger] self.entries().contains_key(x) implies
                        self.entries()[x] == old(self).entries().insert(k, v)[x] by {
                        if x == k {
                            lemma_index_of_unique(nk, nk.len() - 1);
                        } else {
                            assert(ok.contains(x));
                            let j = ok.index_of(x);
                            lemma_index_of_unique(ok, j);
                            assert(nk[j] == x);
                            lemma_index_of_unique(nk, j);
                        }
                    }
                    assert(self.entries().dom() =~= old(self).entries().insert(k, v).dom()) by {
                        assert forall|x: K| old(self).entries().insert(k, v).dom().contains(x)
                            implies #[trigger] nk.contains(x) by {
                            if x == k {
                                assert(nk[nk.len() - 1] == k);
                            } else {
                                let j = ok.index_of(x);
                                assert(nk[j] == x);
                            }
                        }
                    }
                    assert(self.entries() =~= old(self).entries().insert(k, v));
                }
            },
        }
    }

    /// Remove the entry of `k`, returning its value.
    pub fn remove(&mut self, k: K) -> (r: Option<V>)
        requires
            old(self).wf(),
        ensures
            final(self).wf(),
            final(self).entries() == old(self).entries().remove(k),
            match r {
                Some(v) => old(self).entries().contains_key(k) && v == old(self).entries()[k],
                None => !old(self).entries().contains_key(k),
            },
            final(self).key_seq().to_set() == old(self).key_seq().to_set().remove(k),
            !old(self).entries().contains_key(k) ==> final(self).key_seq() == old(self).key_seq(),
    {
        match self.find(k) {
            Some(i) => {
                let ghost ok = self.keys@;
                let ghost ov = self.vals@;
                self.keys.remove(i);
                let v = self.vals.remove(i);
                proof {
                    let nk = self.keys@;
                    assert(nk =~= ok.remove(i as int));
                    assert(nk.no_duplicates()) by {
                        assert forall|a: int, b: int| 0 <= a < nk.len() && 0 <= b < nk.len() && a != b
                            implies nk[a] != nk[b] by {
                            let a2 = if a < i { a } else { a + 1 };
                            let b2 = if b < i { b } else { b + 1 };
                            assert(nk[a] == ok[a2]);
                            assert(nk[b] == ok[b2]);
                        }
                    }
                    assert forall|x: K| #[trigger] nk.contains(x) <==> (ok.contains(x) && x != k) by {
                        if nk.contains(x) {
                            let a = nk.index_of(x);
                            let a2 = if a < i { a } else { a + 1 };
                            assert(ok[a2] == x);
                            if x == k {
                                lemma_index_of_unique(ok, a2);
                            }
                        }
                        if ok.contains(x) && x != k {
                            let a = ok.index_of(x);
                            assert(a != i);
                            let a1 = if a < i { a } else { a - 1 };
                            assert(nk[a1] == x);
                        }
                    }
                    assert forall|x: K| #[trigger] self.entries().contains_key(x) implies
                        self.entries()[x] == old(self).entries().remove(k)[x] by {
                        let a = nk.index_of(x);
                        lemma_index_of_unique(nk, a);
                        let a2 = if a < i { a } else { a + 1 };
                        assert(ok[a2] == x);
                        lemma_index_of_unique(ok, a2);
                        assert(self.vals@[a] == ov[a2]);
                    }
                    assert(self.entries() =~= old(self).entries().remove(k));
                    assert(self.key_seq().to_set() =~= old(self).key_seq().to_set().remove(k));
                }
                Some(v)
            },
            None => {
                assert(old(self).key_seq().to_set().remove(k) =~= old(self).key_seq().to_set());
                None
            },
        }
    }

    /// The keys in storage order.
    pub fn keys(&self) -> (r: Vec<K>)
        requires
            self.wf(),
        ensures
            r@ == self.key_seq(),
    {
        let mut r: Vec<K> = Vec::new();
        let mut i: usize = 0;
        while i < self.keys.len()
            invariant
                i <= self.keys@.len(),
                r@ == self.keys@.take(i as int),
            decreases self.keys@.len() - i,
        {
            r.push(self.keys[i]);
            i = i + 1;
            assert(r@ =~= self.keys@.take(i as int));
        }
        assert(self.keys@.take(self.keys@.len() as int) =~= self.keys@);
        r
    }

    /// Apply `f` to every stored value.
    pub fn map_values<F: Fn(K, V) -> V>(&mut self, f: F)
        requires
            old(self).wf(),
            forall|k: K, v: V| #[trigger] f.requires((k, v)),
        ensures
            final(self).wf(),
            final(self).key_seq() == old(self).key_seq(),
            final(self).entries().dom() == old(self).entries().dom(),
            forall|k: K| #[trigger] final(self).entries().contains_key(k) ==>
                f.ensures((k, old(self).entries()[k]), final(self).entries()[k]),
    {
        let ghost ov = self.vals@;
        let n = self.keys.len();
        let mut new_vals: Vec<V> = Vec::new();
        let mut old_vals: Vec<V> = Vec::new();
        std::mem::swap(&mut self.vals, &mut old_vals);
        // Take values out from the back, then restore the order.
        let mut rev: Vec<V> = Vec::new();
        while old_vals.len() > 0
            invariant
                old_vals@.len() + rev@.len() == n,
                n == ov.len(),
                forall|j: int| 0 <= j < old_vals@.len() ==> old_vals@[j] == ov[j],
                forall|j: int| 0 <= j < rev@.len() ==> rev@[j] == ov[n - 1 - j],
            decreases old_vals@.len(),
        {
            let v = old_vals.pop().unwrap();
            rev.push(v);
        }
        let mut idx: usize = 0;
        while rev.len() > 0
            invariant
                idx + rev@.len() == n,
                n == ov.len(),
                n == self.keys@.len(),
                self.keys@ == old(self).keys@,
                new_vals@.len() == idx,
                forall|j: int| 0 <= j < rev@.len() ==> rev@[j] == ov[n - 1 - j],
                forall|k: K, v: V| #[trigger] f.requires((k, v)),
                forall|j: int| 0 <= j < idx ==> f.ensures((self.keys@[j], ov[j]), #[trigger] new_vals@[j]),
            decreases rev@.len(),
        {
            let v = rev.pop().unwrap();
            let k = self.keys[idx];
            let nv = f(k, v);
            new_vals.push(nv);
            idx = idx + 1;
        }
        self.vals = new_vals;
        proof {
            assert(self.entries().dom() =~= old(self).entries().dom());
            assert forall|k: K| #[trigger] self.entries().contains_key(k) implies
                f.ensures((k, old(self).entries()[k]), self.entries()[k]) by {
                let j = self.keys@.index_of(k);
                lemma_index_of_unique(self.keys@, j);
            }
        }
    }
}

/// The id that follows `id` in allocation: ids wrap around and skip 0.
pub open spec fn next_after(id: u32) -> u32 {
    if id == u32::MAX { 1 } else { (id + 1) as u32 }
}

/// The slots of `order` that hold components of kind `kind`, in order.
pub open spec fn of_kind(order: Seq<SlotKey>, kind: u32) -> Seq<SlotKey>
    decreases order.len(),
{
    if order.len() == 0 {
        Seq::empty()
    } else {
        of_kind(order.drop_last(), kind) + if order.last().kind == kind { seq![order.last()] } else { Seq::empty() }
    }
}

/// The entities of a sequence of slots, in order.
pub open spec fn entities_of(slots: Seq<SlotKey>) -> Seq<EntityId> {
    slots.map_values(|s: SlotKey| s.entity)
}

/// An entity occurs among the holders of kind `kind` in `order` exactly when
/// `order` has its slot of that kind; without repeated slots none occurs twice.
pub proof fn lemma_holders(order: Seq<SlotKey>, kind: u32)
    ensures
        forall|e: EntityId| #[trigger] entities_of(of_kind(order, kind)).contains(e) <==> order.contains(slot(e, kind)),
        order.no_duplicates() ==> entities_of(of_kind(order, kind)).no_duplicates(),
    decreases order.len(),
{
    if order.len() == 0 {
        assert(entities_of(of_kind(order, kind)) =~= Seq::<EntityId>::empty());
    } else {
        let rest = order.drop_last();
        let last = order.last();
        lemma_holders(rest, kind);
        let mr = entities_of(of_kind(rest, kind));
        let m = entities_of(of_kind(order, kind));
        let picked = last.kind == kind;
        if picked {
            assert(of_kind(order, kind) =~= of_kind(rest, kind).push(last));
            assert(m =~= mr.push(last.entity));
        } else {
            assert(of_kind(order, kind) =~= of_kind(rest, kind));
        }
        assert forall|e: EntityId| #[trigger] m.contains(e) <==> order.contains(slot(e, kind)) by {
            if picked && e == last.entity {
                assert(slot(e, kind) == last);
                assert(m[m.len() - 1] == e);
                assert(order[order.len() - 1] == last);
            }
            if mr.contains(e) {
                let j = choose|j: int| 0 <= j < mr.len() && #[trigger] mr[j] == e;
                if picked {
                    assert(m[j] == e);
                }
                let a = choose|a: int| 0 <= a < rest.len() && #[trigger] rest[a] == slot(e, kind);
                assert(order[a] == slot(e, kind));
            }
            if m.contains(e) && !(picked && e == last.entity) {
                let j = choose|j: int| 0 <= j < m.len() && #[trigger] m[j] == e;
                if picked {
                    assert(j < mr.len());
                    assert(mr[j] == e);
                }
                assert(mr.contains(e));
            }
            if order.contains(slot(e, kind)) && !(picked && e == last.entity) {
                let a = choose|a: int| 0 <= a < order.len() && #[trigger] order[a] == slot(e, kind);
                if a == order.len() - 1 {
                    assert(last == slot(e, kind));
                }
                assert(rest[a] == slot(e, kind));
                assert(mr.contains(e));
                let j = choose|j: int| 0 <= j < mr.len() && #[trigger] mr[j] == e;
                if picked {
                    assert(m[j] == e);
                }
            }
        }
        if order.no_duplicates() {
            assert(rest.no_duplicates()) by {
                assert forall|a: int, b: int| 0 <= a < rest.len() && 0 <= b < rest.len() && a != b
                    implies rest[a] != rest[b] by {
                    assert(rest[a] == order[a] && rest[b] == order[b]);
                }
            }
            if picked {
                assert(!mr.contains(last.entity)) by {
                    if mr.contains(last.entity) {
                        assert(slot(last.entity, kind) == last);
                        let a = choose|a: int| 0 <= a < rest.len() && #[trigger] rest[a] == last;
                        assert(order[a] == order[order.len() - 1]);
                    }
                }
                assert forall|a: int, b: int| 0 <= a < m.len() && 0 <= b < m.len() && a != b
                    implies m[a] != m[b] by {
                    if a < mr.len() && b < mr.len() {
                        assert(m[a] == mr[a] && m[b] == mr[b]);
                    } else if a < mr.len() {
                        assert(m[a] == mr[a]);
                    } else if b < mr.len() {
                        assert(m[b] == mr[b]);
                    }
                }
            }
        }
    }
}

/// The kinds of the slots of `order` that belong to entity `e`, in order.
pub open spec fn kinds_of(order: Seq<SlotKey>, e: EntityId) -> Seq<u32>
    decreases order.len(),
{
    if order.len() == 0 {
        Seq::empty()
    } else {
        kinds_of(order.drop_last(), e) + if order.last().entity == e { seq![order.last().kind] } else { Seq::empty() }
    }
}

/// The components of `m` that do not belong to entity `e`.
pub open spec fn without_entity<C>(m: Map<SlotKey, C>, e: EntityId) -> Map<SlotKey, C> {
    Map::new(|s: SlotKey| m.contains_key(s) && s.entity != e, |s: SlotKey| m[s])
}

/// A kind occurs in `kinds_of(order, e)` exactly when `order` has that slot
/// of `e`; without repeated slots no kind occurs twice.
pub proof fn lemma_kinds_of(order: Seq<SlotKey>, e: EntityId)
    ensures
        forall|k: u32| #[trigger] kinds_of(order, e).contains(k) <==> order.contains(slot(e, k)),
        order.no_duplicates() ==> kinds_of(order, e).no_duplicates(),
    decreases order.len(),
{
    if order.len() > 0 {
        let rest = order.drop_last();
        lemma_kinds_of(rest, e);
        let ks = kinds_of(order, e);
        let kr = kinds_of(rest, e);
        assert forall|k: u32| #[trigger] ks.contains(k) <==> order.contains(slot(e, k)) by {
            if ks.contains(k) {
                let j = choose|j: int| 0 <= j < ks.len() && #[trigger] ks[j] == k;
                if order.last().entity == e {
                    assert(ks == kr.push(order.last().kind));
                } else {
                    assert(ks =~= kr);
                }
                if j < kr.len() {
                    assert(kr[j] == k);
                    assert(kr.contains(k));
                    assert(rest.contains(slot(e, k)));
                    let a = choose|a: int| 0 <= a < rest.len() && #[trigger] rest[a] == slot(e, k);
                    assert(order[a] == rest[a]);
                } else {
                    assert(order.last().entity == e);
                    assert(order.last() == slot(e, k));
                    assert(order[order.len() - 1] == slot(e, k));
                }
            }
            if order.contains(slot(e, k)) {
                let a = choose|a: int| 0 <= a < order.len() && #[trigger] order[a] == slot(e, k);
                if a < rest.len() {
                    assert(rest[a] == slot(e, k));
                    assert(kr.contains(k));
                    let j = choose|j: int| 0 <= j < kr.len() && #[trigger] kr[j] == k;
                    assert(ks[j] == k);
                } else {
                    assert(ks[ks.len() - 1] == k);
                }
            }
        }
        if order.no_duplicates() {
            assert(rest.no_duplicates()) by {
                assert forall|a: int, b: int| 0 <= a < rest.len() && 0 <= b < rest.len() && a != b
                    implies rest[a] != rest[b] by {
                    assert(rest[a] == order[a] && rest[b] == order[b]);
                }
            }
            if order.last().entity == e {
                let k = order.last().kind;
                assert(!kr.contains(k)) by {
                    if kr.contains(k) {
                        let a = choose|a: int| 0 <= a < rest.len() && #[trigger] rest[a] == slot(e, k);
                        assert(order[a] == order[order.len() - 1]);
                    }
                }
                assert forall|a: int, b: int| 0 <= a < ks.len() && 0 <= b < ks.len() && a != b
                    implies ks[a] != ks[b] by {
                    if a < kr.len() && b < kr.len() {
                        assert(ks[a] == kr[a] && ks[b] == kr[b]);
                    } else if a < kr.len() {
                        assert(ks[a] == kr[a]);
                        assert(kr.contains(ks[a]));
                    } else if b < kr.len() {
                        assert(ks[b] == kr[b]);
                        assert(kr.contains(ks[b]));
                    }
                }
            } else {
                assert(ks =~= kr);
            }
        }
    }
}

/// Simple entity/world container with component storage.
///
/// Entities are identified by `EntityId`; each entity holds at most one
/// component of each kind (see `Kinded`), kept in the slot of that kind.
pub struct World<C> {
    next_id: u32,
    alive: Table<EntityId, ()>,
    components: Table<SlotKey, C>,
    /// Whether the id counter has run past `u32::MAX` and started over.
    wrapped: Ghost<bool>,
    /// The ids handed out by `spawn` or passed to `restore_entity` so far.
    issued: Ghost<Set<u32>>,
}

impl<C> World<C> {
    pub closed spec fn wf(&self) -> bool {
        &&& self.alive.wf()
        &&& self.components.wf()
        &&& self.next_id >= 1
        &&& forall|e: EntityId| #[trigger] self.alive.entries().contains_key(e) ==> self.issued@.contains(e.0)
        &&& !self.wrapped@ ==> forall|i: u32| #[trigger] self.issued@.contains(i) ==> i < self.next_id
    }

    /// The ids handed out by `spawn` or passed to `restore_entity` since the
    /// world was made.
    pub closed spec fn issued_ids(&self) -> Set<u32> {
        self.issued@
    }

    /// The id counter has started over at 1 since the world was made; until
    /// then every alive id lies below the next id handed out.
    pub closed spec fn ids_wrapped(&self) -> bool {
        self.wrapped@
    }

    /// Until the counter wraps, every alive entity's id is below the next id.
    pub proof fn lemma_ids_below(&self)
        requires
            self.wf(),
        ensures
            !self.ids_wrapped() ==> forall|e: EntityId| #[trigger] self.alive().contains(e) ==> e.0 < self.next_id(),
            !self.ids_wrapped() ==> forall|i: u32| #[trigger] self.issued_ids().contains(i) ==> i < self.next_id(),
            forall|e: EntityId| #[trigger] self.alive().contains(e) ==> self.issued_ids().contains(e.0),
    {
    }

    /// The set of alive entities.
    pub closed spec fn alive(&self) -> Set<EntityId> {
        self.alive.entries().dom()
    }

    /// The stored components, by slot (entity and kind).
    pub closed spec fn components(&self) -> Map<SlotKey, C> {
        self.components.entries()
    }

    /// The id that the next `spawn` hands out.
    pub closed spec fn next_id(&self) -> u32 {
        self.next_id
    }

    /// The occupied slots, in storage order.
    pub closed spec fn component_order(&self) -> Seq<SlotKey> {
        self.components.key_seq()
    }

    pub proof fn lemma_wf(&self)
        requires
            self.wf(),
        ensures
            self.alive().finite(),
            self.components().dom().finite(),
            self.next_id() >= 1,
            self.component_order().no_duplicates(),
            self.component_order().to_set() == self.components().dom(),
    {
        self.alive.lemma_key_seq();
        self.components.lemma_key_seq();
    }

    /// Create a new, empty world.
    pub fn new() -> (w: Self)
        ensures
            w.wf(),
            w.alive() == Set::<EntityId>::empty(),
            w.components() == Map::<SlotKey, C>::empty(),
            w.next_id() == 1,
            !w.ids_wrapped(),
            w.issued_ids() == Set::<u32>::empty(),
    {
        World { next_id: 1, alive: Table::new(), components: Table::new(), wrapped: Ghost(false), issued: Ghost(Set::empty()) }
    }

    /// Spawn a new entity and return its `EntityId`.
    pub fn spawn(&mut self) -> (id: EntityId)
        requires
            old(self).wf(),
        ensures
            final(self).wf(),
            id == EntityId(old(self).next_id()),
            final(self).alive() == old(self).alive().insert(id),
            final(self).components() == old(self).components(),
            final(self).component_order() == old(self).component_order(),
            final(self).next_id() == next_after(old(self).next_id()),
            final(self).ids_wrapped() == (old(self).ids_wrapped() || old(self).next_id() == u32::MAX),
            !old(self).ids_wrapped() ==> !old(self).alive().contains(id),
            !old(self).ids_wrapped() ==> !old(self).issued_ids().contains(id.0),
            final(self).issued_ids() == old(self).issued_ids().insert(id.0),
    {
        let id = EntityId(self.next_id);
        if self.next_id == u32::MAX {
            self.next_id = 1;
            self.wrapped = Ghost(true);
        } else {
            self.next_id = self.next_id + 1;
        }
        self.alive.insert(id, ());
        self.issued = Ghost(self.issued@.insert(id.0));
        id
    }

    /// Despawn an entity, removing it and all of its components.
    pub fn despawn(&mut self, entity: EntityId) -> (r: bool)
        requires
            old(self).wf(),
        ensures
            final(self).wf(),
            r == old(self).alive().contains(entity),
            final(self).alive() == old(self).alive().remove(entity),
            final(self).components() == (if r { without_entity(old(self).components(), entity) } else { old(self).components() }),
            !r ==> final(self).component_order() == old(self).component_order(),
            final(self).next_id() == old(self).next_id(),
            final(self).ids_wrapped() == old(self).ids_wrapped(),
            final(self).issued_ids() == old(self).issued_ids(),
    {
        if !self.alive.contains_key(entity) {
            return false;
        }
        let keys = self.components.keys();
        let ghost om = old(self).components.entries();
        let mut i: usize = 0;
        while i < keys.len()
            invariant
                self.components.wf(),
                self.alive == old(self).alive,
                self.next_id == old(self).next_id,
                self.wrapped == old(self).wrapped,
                self.issued == old(self).issued,
                keys@ == old(self).components.key_seq(),
                i <= keys@.len(),
                self.components.entries() == Map::new(
                    |s: SlotKey| om.contains_key(s) && !(s.entity == entity && keys@.take(i as int).contains(s)),
                    |s: SlotKey| om[s],
                ),
            decreases keys@.len() - i,
        {
            let k = keys[i];
            if k.entity.0 == entity.0 {
                self.components.remove(k);
            }
            proof {
                assert(keys@.take(i + 1) =~= keys@.take(i as int).push(k));
                assert forall|s: SlotKey| #[trigger] keys@.take(i + 1).contains(s) <==> (keys@.take(i as int).contains(s) || s == k) by {
                    let t = keys@.take(i as int);
                    if keys@.take(i + 1).contains(s) {
                        let j = choose|j: int| 0 <= j < t.len() + 1 && #[trigger] keys@.take(i + 1)[j] == s;
                        if j < t.len() {
                            assert(t[j] == s);
                        }
                    }
                    if t.contains(s) {
                        let j = choose|j: int| 0 <= j < t.len() && #[trigger] t[j] == s;
                        assert(keys@.take(i + 1)[j] == s);
                    }
                    if s == k {
                        assert(keys@.take(i + 1)[i as int] == s);
                    }
                }
                assert(self.components.entries() =~= Map::new(
                    |s: SlotKey| om.contains_key(s) && !(s.entity == entity && keys@.take(i + 1).contains(s)),
                    |s: SlotKey| om[s],
                ));
            }
            i = i + 1;
        }
        self.alive.remove(entity);
        proof {
            old(self).components.lemma_key_seq();
            assert(keys@.take(keys@.len() as int) =~= keys@);
            assert forall|s: SlotKey| om.contains_key(s) implies #[trigger] keys@.contains(s) by {
                assert(old(self).components.key_seq().to_set().contains(s));
            }
            assert(self.components.entries() =~= without_entity(om, entity));
            assert(self.alive.entries().dom() =~= old(self).alive.entries().dom().remove(entity));
        }
        true
    }

    /// Check if an entity is currently alive.
    pub fn is_alive(&self, entity: EntityId) -> (r: bool)
        requires
            self.wf(),
        ensures
            r == self.alive().contains(entity),
    {
        self.alive.contains_key(entity)
    }

    /// Number of alive entities.
    pub fn len(&self) -> (n: usize)
        requires
            self.wf(),
        ensures
            n == self.alive().len(),
    {
        self.alive.len()
    }

    /// Return all currently alive entities.
    pub fn entities(&self) -> (r: Vec<EntityId>)
        requires
            self.wf(),
        ensures
            r@.no_duplicates(),
            r@.to_set() == self.alive(),
    {
        proof {
            self.alive.lemma_key_seq();
        }
        self.alive.keys()
    }

    /// Returns true if there are no entities in the world.
    pub fn is_empty(&self) -> (r: bool)
        requires
            self.wf(),
        ensures
            r == (self.alive().len() == 0),
    {
        self.alive.len() == 0
    }

    /// Insert a component for an entity, in the slot of its kind, replacing
    /// any component of that kind the entity held.
    pub fn insert(&mut self, entity: EntityId, component: C)
        where
            C: Kinded,
        requires
            old(self).wf(),
        ensures
            final(self).wf(),
            final(self).components() == old(self).components().insert(slot(entity, component.kind_of()), component),
            final(self).alive() == old(self).alive(),
            final(self).next_id() == old(self).next_id(),
            final(self).ids_wrapped() == old(self).ids_wrapped(),
            final(self).issued_ids() == old(self).issued_ids(),
            old(self).components().contains_key(slot(entity, component.kind_of())) ==> final(self).component_order() == old(self).component_order(),
            !old(self).components().contains_key(slot(entity, component.kind_of())) ==> final(self).component_order()
                == old(self).component_order().push(slot(entity, component.kind_of())),
    {
        let kind = component.kind();
        self.insert_slot(entity, kind, component);
    }

    /// Put `component` into the slot of kind `kind` of `entity` (as restoring
    /// a saved component does), replacing what was there.
    pub fn insert_slot(&mut self, entity: EntityId, kind: u32, component: C)
        requires
            old(self).wf(),
        ensures
            final(self).wf(),
            final(self).components() == old(self).components().insert(slot(entity, kind), component),
            final(self).alive() == old(self).alive(),
            final(self).next_id() == old(self).next_id(),
            final(self).ids_wrapped() == old(self).ids_wrapped(),
            final(self).issued_ids() == old(self).issued_ids(),
            old(self).components().contains_key(slot(entity, kind)) ==> final(self).component_order() == old(self).component_order(),
            !old(self).components().contains_key(slot(entity, kind)) ==> final(self).component_order() == old(self).component_order().push(slot(entity, kind)),
    {
        self.components.insert(SlotKey { entity, kind }, component);
    }

    /// Remove and return the component of kind `kind` of an entity, if it exists.
    pub fn remove(&mut self, entity: EntityId, kind: u32) -> (r: Option<C>)
        requires
            old(self).wf(),
        ensures
            final(self).wf(),
            final(self).components() == old(self).components().remove(slot(entity, kind)),
            r == (if old(self).components().contains_key(slot(entity, kind)) { Some(old(self).components()[slot(entity, kind)]) } else { None::<C> }),
            final(self).alive() == old(self).alive(),
            final(self).next_id() == old(self).next_id(),
            final(self).ids_wrapped() == old(self).ids_wrapped(),
            final(self).issued_ids() == old(self).issued_ids(),
            !old(self).components().contains_key(slot(entity, kind)) ==> final(self).component_order() == old(self).component_order(),
    {
        self.components.remove(SlotKey { entity, kind })
    }

    /// Get the component of kind `kind` of an entity.
    pub fn get(&self, entity: EntityId, kind: u32) -> (r: Option<&C>)
        requires
            self.wf(),
        ensures
            match r {
                Some(c) => self.components().contains_key(slot(entity, kind)) && *c == self.components()[slot(entity, kind)],
                None => !self.components().contains_key(slot(entity, kind)),
            },
    {
        self.components.get(SlotKey { entity, kind })
    }

    /// Get a mutable reference to the component of kind `kind` of an entity.
    pub fn get_mut(&mut self, entity: EntityId, kind: u32) -> (r: Option<&mut C>)
        requires
            old(self).wf(),
        ensures
            match r {
                Some(c) => {
                    &&& old(self).components().contains_key(slot(entity, kind))
                    &&& *c == old(self).components()[slot(entity, kind)]
                    &&& final(self).wf()
                    &&& final(self).components() == old(self).components().insert(slot(entity, kind), *final(c))
                    &&& final(self).component_order() == old(self).component_order()
                    &&& final(self).alive() == old(self).alive()
                    &&& final(self).next_id() == old(self).next_id()
                    &&& final(self).ids_wrapped() == old(self).ids_wrapped()
                    &&& final(self).issued_ids() == old(self).issued_ids()
                },
                None => {
                    &&& !old(self).components().contains_key(slot(entity, kind))
                    &&& *final(self) == *old(self)
                },
            },
    {
        self.components.get_mut(SlotKey { entity, kind })
    }

    /// All entities that have a component of kind `kind`, with a reference to
    /// it, in storage order.
    pub fn query(&self, kind: u32) -> (r: Vec<(EntityId, &C)>)
        requires
            self.wf(),
        ensures
            r@.len() == of_kind(self.component_order(), kind).len(),
            forall|i: int| 0 <= i < r@.len() ==> (#[trigger] r@[i]).0 == of_kind(self.component_order(), kind)[i].entity
                && *r@[i].1 == self.components()[of_kind(self.component_order(), kind)[i]],
    {
        proof {
            self.components.lemma_key_seq();
        }
        let keys = self.components.keys();
        let mut out: Vec<(EntityId, &C)> = Vec::new();
        let mut i: usize = 0;
        while i < keys.len()
            invariant
                self.wf(),
                keys@ == self.component_order(),
                i <= keys@.len(),
                out@.len() == of_kind(keys@.take(i as int), kind).len(),
                forall|j: int| 0 <= j < out@.len() ==> (#[trigger] out@[j]).0 == of_kind(keys@.take(i as int), kind)[j].entity
                    && *out@[j].1 == self.components()[of_kind(keys@.take(i as int), kind)[j]],
                forall|j: int| 0 <= j < keys@.len() ==> self.components().contains_key(#[trigger] keys@[j]),
            decreases keys@.len() - i,
        {
            let k = keys[i];
            let ghost prev = of_kind(keys@.take(i as int), kind);
            proof {
                assert(keys@.take(i + 1).drop_last() =~= keys@.take(i as int));
                assert(keys@.take(i + 1).last() == k);
            }
            if k.kind == kind {
                let c = self.components.get(k).unwrap();
                out.push((k.entity, c));
                proof {
                    assert(of_kind(keys@.take(i + 1), kind) =~= prev.push(k));
                }
            } else {
                proof {
                    assert(of_kind(keys@.take(i + 1), kind) =~= prev);
                }
            }
            i = i + 1;
        }
        proof {
            assert(keys@.take(keys@.len() as int) =~= keys@);
        }
        out
    }

    /// Copies of the components of an entity, with their kinds, in storage order.
    pub fn components_of(&self, entity: EntityId) -> (r: Vec<(u32, C)>)
        where
            C: Clone,
        requires
            self.wf(),
        ensures
            r@.len() == kinds_of(self.component_order(), entity).len(),
            forall|i: int| 0 <= i < r@.len() ==> (#[trigger] r@[i]).0 == kinds_of(self.component_order(), entity)[i]
                && self.components().contains_key(slot(entity, r@[i].0))
                && cloned(self.components()[slot(entity, r@[i].0)], r@[i].1),
    {
        proof {
            self.components.lemma_key_seq();
        }
        let keys = self.components.keys();
        let mut out: Vec<(u32, C)> = Vec::new();
        let mut i: usize = 0;
        while i < keys.len()
            invariant
                self.wf(),
                keys@ == self.component_order(),
                i <= keys@.len(),
                out@.len() == kinds_of(keys@.take(i as int), entity).len(),
                forall|j: int| 0 <= j < out@.len() ==> (#[trigger] out@[j]).0 == kinds_of(keys@.take(i as int), entity)[j]
                    && self.components().contains_key(slot(entity, out@[j].0))
                    && cloned(self.components()[slot(entity, out@[j].0)], out@[j].1),
                forall|j: int| 0 <= j < keys@.len() ==> self.components().contains_key(#[trigger] keys@[j]),
            decreases keys@.len() - i,
        {
            let k = keys[i];
            let ghost prev = kinds_of(keys@.take(i as int), entity);
            proof {
                assert(keys@.take(i + 1).drop_last() =~= keys@.take(i as int));
                assert(keys@.take(i + 1).last() == k);
            }
            if k.entity.0 == entity.0 {
                let c = self.components.get(k).unwrap();
                out.push((k.kind, c.clone()));
                proof {
                    assert(k == slot(entity, k.kind));
                    assert(kinds_of(keys@.take(i + 1), entity) =~= prev.push(k.kind));
                }
            } else {
                proof {
                    assert(kinds_of(keys@.take(i + 1), entity) =~= prev);
                }
            }
            i = i + 1;
        }
        proof {
            assert(keys@.take(keys@.len() as int) =~= keys@);
        }
        out
    }

    /// Update every component of kind `kind` in a single pass: each such
    /// component `c` of entity `e` is replaced by `f(e, c)`; components of
    /// other kinds are left as they are.
    pub fn query_mut<F: Fn(EntityId, C) -> C>(&mut self, kind: u32, f: F)
        requires
            old(self).wf(),
            forall|e: EntityId, c: C| #[trigger] f.requires((e, c)),
        ensures
            final(self).wf(),
            final(self).alive() == old(self).alive(),
            final(self).next_id() == old(self).next_id(),
            final(self).ids_wrapped() == old(self).ids_wrapped(),
            final(self).issued_ids() == old(self).issued_ids(),
            final(self).component_order() == old(self).component_order(),
            final(self).components().dom() == old(self).components().dom(),
            forall|s: SlotKey| #[trigger] final(self).components().contains_key(s) && s.kind == kind ==>
                f.ensures((s.entity, old(self).components()[s]), final(self).components()[s]),
            forall|s: SlotKey| #[trigger] final(self).components().contains_key(s) && s.kind != kind ==>
                final(self).components()[s] == old(self).components()[s],
    {
        let fr = &f;
        let g = move |s: SlotKey, c: C| -> (r: C)
            requires
                fr.requires((s.entity, c)),
            ensures
                s.kind == kind ==> fr.ensures((s.entity, c), r),
                s.kind != kind ==> r == c,
        {
            if s.kind == kind {
                fr(s.entity, c)
            } else {
                c
            }
        };
        self.components.map_values(g);
    }

    /// Restore an entity with a specific ID (for scene loading/play mode restore).
    /// This marks the entity as alive and keeps future spawns above it.
    pub fn restore_entity(&mut self, entity_id: EntityId)
        requires
            old(self).wf(),
        ensures
            final(self).wf(),
            final(self).alive() == old(self).alive().insert(entity_id),
            final(self).components() == old(self).components(),
            final(self).component_order() == old(self).component_order(),
            final(self).next_id() == (if entity_id.0 >= old(self).next_id() { next_after(entity_id.0) } else { old(self).next_id() }),
            final(self).ids_wrapped() == (old(self).ids_wrapped() || entity_id.0 == u32::MAX),
            final(self).issued_ids() == old(self).issued_ids().insert(entity_id.0),
    {
        self.alive.insert(entity_id, ());
        self.issued = Ghost(self.issued@.insert(entity_id.0));
        let id_num = entity_id.to_u32();
        if id_num >= self.next_id {
            if id_num == u32::MAX {
                self.next_id = 1;
            } else {
                self.next_id = id_num + 1;
            }
        }
        if id_num == u32::MAX {
            self.wrapped = Ghost(true);
        }
    }
}

/// After `insert(entity, component)`, `get(entity, kind)` finds exactly that
/// component for its kind; the entity's components of other kinds and the
/// other entities' components are untouched.
pub proof fn law_get_after_insert<C: Kinded>(before: World<C>, after: World<C>, entity: EntityId, component: C)
    requires
        after.components() == before.components().insert(slot(entity, component.kind_of()), component),
    ensures
        after.components().contains_key(slot(entity, component.kind_of())),
        after.components()[slot(entity, component.kind_of())] == component,
        forall|s: SlotKey| s != slot(entity, component.kind_of()) ==> (#[trigger] after.components().contains_key(s) == before.components().contains_key(s))
            && (before.components().contains_key(s) ==> after.components()[s] == before.components()[s]),
{
}

/// Removing a component just inserted into an empty slot gives it back and
/// leaves the components as they were.
pub proof fn law_remove_after_insert<C>(w0: World<C>, w1: World<C>, w2: World<C>, s: SlotKey, component: C, r: Option<C>)
    requires
        !w0.components().contains_key(s),
        w1.components() == w0.components().insert(s, component),
        w2.components() == w1.components().remove(s),
        r == (if w1.components().contains_key(s) { Some(w1.components()[s]) } else { None::<C> }),
    ensures
        r == Some(component),
        w2.components() == w0.components(),
{
    assert(w2.components() =~= w0.components());
}

/// A despawned entity is no longer alive, and despawning an alive entity
/// removes all its components; the other entities keep theirs.
pub proof fn law_despawn_clears<C>(before: World<C>, after: World<C>, entity: EntityId, r: bool)
    requires
        r == before.alive().contains(entity),
        after.alive() == before.alive().remove(entity),
        after.components() == (if r { without_entity(before.components(), entity) } else { before.components() }),
    ensures
        !after.alive().contains(entity),
        r ==> forall|k: u32| !#[trigger] after.components().contains_key(slot(entity, k)),
        forall|s: SlotKey| s.entity != entity ==> (#[trigger] after.components().contains_key(s) == before.components().contains_key(s))
            && (before.components().contains_key(s) ==> after.components()[s] == before.components()[s]),
{
}

/// `query(kind)` lists each entity that holds a component of kind `kind`
/// exactly once, and no other entity.
pub proof fn law_query_holders<C>(w: World<C>, kind: u32)
    requires
        w.wf(),
    ensures
        entities_of(of_kind(w.component_order(), kind)).no_duplicates(),
        forall|e: EntityId| #[trigger] entities_of(of_kind(w.component_order(), kind)).contains(e)
            <==> w.components().contains_key(slot(e, kind)),
{
    w.lemma_wf();
    lemma_holders(w.component_order(), kind);
    assert forall|e: EntityId| #[trigger] entities_of(of_kind(w.component_order(), kind)).contains(e)
        <==> w.components().contains_key(slot(e, kind)) by {
        assert(w.component_order().to_set().contains(slot(e, kind)) <==> w.component_order().contains(slot(e, kind)));
    }
}

/// Until the id counter wraps, a spawned id is fresh: it differs from, and
/// lies above, every id handed out by `spawn` or passed to `restore_entity`
/// before, and so from every alive id.
pub proof fn law_spawn_fresh<C>(before: World<C>, id: EntityId)
    requires
        before.wf(),
        id == EntityId(before.next_id()),
        !before.ids_wrapped(),
    ensures
        !before.issued_ids().contains(id.0),
        forall|i: u32| #[trigger] before.issued_ids().contains(i) ==> i < id.0,
        !before.alive().contains(id),
        forall|e: EntityId| #[trigger] before.alive().contains(e) ==> e.0 < id.0,
{
    before.lemma_ids_below();
}

/// A spawned entity is alive, and spawning adds exactly one entity when the
/// id handed out was not alive yet.
pub proof fn law_spawn_alive<C>(before: World<C>, after: World<C>, id: EntityId)
    requires
        before.wf(),
        id == EntityId(before.next_id()),
        after.alive() == before.alive().insert(id),
        !before.alive().contains(id),
    ensures
        after.alive().contains(id),
        after.alive().len() == before.alive().len() + 1,
{
    before.lemma_wf();
}


impl<C> Default for World<C> {
    fn default() -> (w: Self)
        ensures
            w.wf(),
            w.alive() == Set::<EntityId>::empty(),
            w.components() == Map::<SlotKey, C>::empty(),
            w.next_id() == 1,
    {
        Self::new()
    }
}

} // verus!
