//! Bookkeeping of the script runtime between frames: which keys are held and
//! which were pressed this frame, and which scripts have started or were
//! reported missing in the current play session.
use vstd::prelude::*;
use crate::runtime::{normalize_key, normalized_key};

verus! {

/// The character sequences of a list of strings.
pub open spec fn strs(v: Seq<String>) -> Seq<Seq<char>> {
    v.map_values(|s: String| s@)
}

/// Whether `v` holds a string equal to `s`.
fn contains_str(v: &Vec<String>, s: &String) -> (b: bool)
    ensures
        b == strs(v@).contains(s@),
{
    let mut i: usize = 0;
    while i < v.len()
        invariant
            i <= v@.len(),
            forall|j: int| 0 <= j < i ==> (#[trigger] v@[j])@ != s@,
        decreases v@.len() - i,
    {
        if v[i] == *s {
            assert(strs(v@)[i as int] == s@);
            return true;
        }
        i = i + 1;
    }
    assert forall|j: int| 0 <= j < strs(v@).len() implies strs(v@)[j] != s@ by {
        assert(strs(v@)[j] == v@[j]@);
    }
    false
}

/// The normalized names of `keys` (see `normalize_key`), each once.
fn normalized_set(keys: &Vec<String>) -> (r: Vec<String>)
    ensures
        strs(r@).no_duplicates(),
        strs(r@).to_set() == strs(keys@).map_values(|k: Seq<char>| normalized_key(k)).to_set(),
{
    let ghost target = strs(keys@).map_values(|k: Seq<char>| normalized_key(k));
    let mut r: Vec<String> = Vec::new();
    let mut i: usize = 0;
    while i < keys.len()
        invariant
            i <= keys@.len(),
            target == strs(keys@).map_values(|k: Seq<char>| normalized_key(k)),
            strs(r@).no_duplicates(),
            strs(r@).to_set() == target.take(i as int).to_set(),
        decreases keys@.len() - i,
    {
        let n = normalize_key(keys[i].as_str());
        let ghost before = strs(r@);
        proof {
            assert(target[i as int] == normalized_key(keys@[i as int]@));
            assert(target.take(i + 1) =~= target.take(i as int).push(n@));
            lemma_push_to_set(target.take(i as int), n@);
        }
        if !contains_str(&r, &n) {
            r.push(n);
            proof {
                assert(strs(r@) =~= before.push(r@[r@.len() - 1]@));
                lemma_push_to_set(before, r@[r@.len() - 1]@);
                lemma_push_no_duplicates(before, r@[r@.len() - 1]@);
            }
        } else {
            proof {
                assert(before.to_set().insert(n@) =~= before.to_set());
            }
        }
        i = i + 1;
    }
    assert(target.take(keys@.len() as int) =~= target);
    r
}

proof fn lemma_push_to_set<A>(s: Seq<A>, x: A)
    ensures
        s.push(x).to_set() == s.to_set().insert(x),
{
    assert forall|y: A| #[trigger] s.push(x).to_set().contains(y) == s.to_set().insert(x).contains(y) by {
        crate::scene::lemma_push_contains(s, x, y);
    }
    assert(s.push(x).to_set() =~= s.to_set().insert(x));
}

proof fn lemma_push_no_duplicates<A>(s: Seq<A>, x: A)
    requires
        s.no_duplicates(),
        !s.contains(x),
    ensures
        s.push(x).no_duplicates(),
{
    let t = s.push(x);
    assert forall|i: int, j: int| 0 <= i < t.len() && 0 <= j < t.len() && i != j implies t[i] != t[j] by {
        if i < s.len() && j < s.len() {
            assert(t[i] == s[i] && t[j] == s[j]);
        } else if i == s.len() {
            assert(t[j] == s[j]);
        } else {
            assert(t[i] == s[i]);
        }
    }
}

/// The keys of a frame: those held (normalized, each once) and those held
/// now but not in the previous frame.
pub struct KeyFrame {
    pub down: Vec<String>,
    pub pressed: Vec<String>,
}

/// Work out the keys held and the keys pressed this frame from the raw key
/// names held now and in the previous frame; names are compared after
/// normalization (see `normalize_key`).
pub fn key_frame(new_keys: &Vec<String>, prev_keys: &Vec<String>) -> (r: KeyFrame)
    ensures
        strs(r.down@).no_duplicates(),
        strs(r.down@).to_set() == strs(new_keys@).map_values(|k: Seq<char>| normalized_key(k)).to_set(),
        strs(r.pressed@).no_duplicates(),
        strs(r.pressed@).to_set() == strs(new_keys@).map_values(|k: Seq<char>| normalized_key(k)).to_set().difference(
            strs(prev_keys@).map_values(|k: Seq<char>| normalized_key(k)).to_set(),
        ),
{
    let down = normalized_set(new_keys);
    let prev = normalized_set(prev_keys);
    let ghost down_set = strs(down@).to_set();
    let ghost prev_set = strs(prev@).to_set();
    let mut pressed: Vec<String> = Vec::new();
    let mut i: usize = 0;
    while i < down.len()
        invariant
            i <= down@.len(),
            down_set == strs(down@).to_set(),
            prev_set == strs(prev@).to_set(),
            strs(down@).no_duplicates(),
            strs(pressed@).no_duplicates(),
            strs(pressed@).to_set() == strs(down@).take(i as int).to_set().difference(prev_set),
            forall|j: int| 0 <= j < pressed@.len() ==> strs(down@).take(i as int).contains(#[trigger] strs(pressed@)[j]),
        decreases down@.len() - i,
    {
        let ghost before = strs(pressed@);
        let ghost d = strs(down@);
        proof {
            assert(d.take(i + 1) =~= d.take(i as int).push(d[i as int]));
            lemma_push_to_set(d.take(i as int), d[i as int]);
            assert(d[i as int] == down@[i as int]@);
        }
        if !contains_str(&prev, &down[i]) {
            let k = down[i].clone();
            pressed.push(k);
            proof {
                assert(strs(pressed@) =~= before.push(d[i as int]));
                assert(!before.contains(d[i as int])) by {
                    if before.contains(d[i as int]) {
                        let j = choose|j: int| 0 <= j < before.len() && before[j] == d[i as int];
                        assert(d.take(i as int).contains(before[j]));
                        let m = choose|m: int| 0 <= m < i && d.take(i as int)[m] == before[j];
                        assert(d[m] == d[i as int]);
                    }
                }
                lemma_push_to_set(before, d[i as int]);
                lemma_push_no_duplicates(before, d[i as int]);
                assert(strs(pressed@).to_set() =~= d.take(i + 1).to_set().difference(prev_set));
                assert forall|j: int| 0 <= j < pressed@.len() implies d.take(i + 1).contains(#[trigger] strs(pressed@)[j]) by {
                    if j < before.len() {
                        assert(d.take(i as int).contains(before[j]));
                        let m = choose|m: int| 0 <= m < i && d.take(i as int)[m] == before[j];
                        assert(d.take(i + 1)[m] == before[j]);
                    } else {
                        assert(d.take(i + 1)[i as int] == d[i as int]);
                    }
                }
            }
        } else {
            proof {
                assert(strs(pressed@).to_set() =~= d.take(i + 1).to_set().difference(prev_set));
                assert forall|j: int| 0 <= j < pressed@.len() implies d.take(i + 1).contains(#[trigger] strs(pressed@)[j]) by {
                    assert(d.take(i as int).contains(before[j]));
                    let m = choose|m: int| 0 <= m < i && d.take(i as int)[m] == before[j];
                    assert(d.take(i + 1)[m] == before[j]);
                }
            }
        }
        i = i + 1;
    }
    assert(strs(down@).take(down@.len() as int) =~= strs(down@));
    KeyFrame { down, pressed }
}

/// An (entity, script path) pair by its view.
pub open spec fn pair_view(p: (u64, String)) -> (u64, Seq<char>) {
    (p.0, p.1@)
}

/// The pairs of a list, by view.
pub open spec fn pairs(v: Seq<(u64, String)>) -> Set<(u64, Seq<char>)> {
    v.map_values(|p: (u64, String)| pair_view(p)).to_set()
}

/// Whether `v` holds the pair (entity, path).
fn contains_pair(v: &Vec<(u64, String)>, entity: u64, path: &String) -> (b: bool)
    ensures
        b == pairs(v@).contains((entity, path@)),
{
    let mut i: usize = 0;
    while i < v.len()
        invariant
            i <= v@.len(),
            forall|j: int| 0 <= j < i ==> pair_view(#[trigger] v@[j]) != (entity, path@),
        decreases v@.len() - i,
    {
        if v[i].0 == entity && v[i].1 == *path {
            assert(v@.map_values(|p: (u64, String)| pair_view(p))[i as int] == (entity, path@));
            return true;
        }
        i = i + 1;
    }
    proof {
        let m = v@.map_values(|p: (u64, String)| pair_view(p));
        if m.contains((entity, path@)) {
            let j = choose|j: int| 0 <= j < m.len() && m[j] == (entity, path@);
            assert(pair_view(v@[j]) == (entity, path@));
        }
    }
    false
}

/// The pairs of `v` whose entity is not `entity`, in order.
fn without_entity(v: &Vec<(u64, String)>, entity: u64) -> (r: Vec<(u64, String)>)
    ensures
        pairs(r@) == pairs(v@).filter(|p: (u64, Seq<char>)| p.0 != entity),
{
    let ghost mv = v@.map_values(|p: (u64, String)| pair_view(p));
    let mut r: Vec<(u64, String)> = Vec::new();
    let mut i: usize = 0;
    while i < v.len()
        invariant
            i <= v@.len(),
            mv == v@.map_values(|p: (u64, String)| pair_view(p)),
            pairs(r@) == mv.take(i as int).to_set().filter(|p: (u64, Seq<char>)| p.0 != entity),
        decreases v@.len() - i,
    {
        let ghost before = r@;
        proof {
            assert(mv.take(i + 1) =~= mv.take(i as int).push(mv[i as int]));
            lemma_push_to_set(mv.take(i as int), mv[i as int]);
        }
        if v[i].0 != entity {
            let p = (v[i].0, v[i].1.clone());
            r.push(p);
            proof {
                assert(r@.map_values(|p: (u64, String)| pair_view(p)) =~= before.map_values(|p: (u64, String)| pair_view(p)).push(mv[i as int]));
                lemma_push_to_set(before.map_values(|p: (u64, String)| pair_view(p)), mv[i as int]);
                assert(pairs(r@) =~= mv.take(i + 1).to_set().filter(|p: (u64, Seq<char>)| p.0 != entity));
            }
        } else {
            proof {
                assert(pairs(r@) =~= mv.take(i + 1).to_set().filter(|p: (u64, Seq<char>)| p.0 != entity));
            }
        }
        i = i + 1;
    }
    assert(mv.take(v@.len() as int) =~= mv);
    r
}

/// The scripts (by entity and path) that have started in this play
/// session, and those reported missing.
pub struct ScriptSessions {
    started: Vec<(u64, String)>,
    missing: Vec<(u64, String)>,
}

impl ScriptSessions {
    pub closed spec fn started(&self) -> Set<(u64, Seq<char>)> {
        pairs(self.started@)
    }

    pub closed spec fn missing(&self) -> Set<(u64, Seq<char>)> {
        pairs(self.missing@)
    }

    /// No script started or reported missing yet.
    pub fn new() -> (s: Self)
        ensures
            s.started() == Set::<(u64, Seq<char>)>::empty(),
            s.missing() == Set::<(u64, Seq<char>)>::empty(),
    {
        let s = ScriptSessions { started: Vec::new(), missing: Vec::new() };
        assert(s.started() =~= Set::<(u64, Seq<char>)>::empty());
        assert(s.missing() =~= Set::<(u64, Seq<char>)>::empty());
        s
    }

    /// Record that the script `path` of `entity` runs; `true` the first time
    /// in the session (when its start hook is due).
    pub fn mark_started(&mut self, entity: u64, path: &str) -> (first: bool)
        ensures
            first == !old(self).started().contains((entity, path@)),
            final(self).started() == old(self).started().insert((entity, path@)),
            final(self).missing() == old(self).missing(),
    {
        let p = path.to_owned();
        if contains_pair(&self.started, entity, &p) {
            assert(old(self).started().insert((entity, path@)) =~= old(self).started());
            return false;
        }
        let ghost before = self.started@;
        self.started.push((entity, p));
        proof {
            assert(self.started@.map_values(|q: (u64, String)| pair_view(q)) =~= before.map_values(|q: (u64, String)| pair_view(q)).push((entity, path@)));
            lemma_push_to_set(before.map_values(|q: (u64, String)| pair_view(q)), (entity, path@));
        }
        true
    }

    /// Record that the script `path` of `entity` was not found; `true` the
    /// first time in the session (when it is due to be reported).
    pub fn mark_missing(&mut self, entity: u64, path: &str) -> (first: bool)
        ensures
            first == !old(self).missing().contains((entity, path@)),
            final(self).missing() == old(self).missing().insert((entity, path@)),
            final(self).started() == old(self).started(),
    {
        let p = path.to_owned();
        if contains_pair(&self.missing, entity, &p) {
            assert(old(self).missing().insert((entity, path@)) =~= old(self).missing());
            return false;
        }
        let ghost before = self.missing@;
        self.missing.push((entity, p));
        proof {
            assert(self.missing@.map_values(|q: (u64, String)| pair_view(q)) =~= before.map_values(|q: (u64, String)| pair_view(q)).push((entity, path@)));
            lemma_push_to_set(before.map_values(|q: (u64, String)| pair_view(q)), (entity, path@));
        }
        true
    }

    /// Forget an entity's scripts, so they start again if it comes back.
    pub fn evict(&mut self, entity: u64)
        ensures
            final(self).started() == old(self).started().filter(|p: (u64, Seq<char>)| p.0 != entity),
            final(self).missing() == old(self).missing().filter(|p: (u64, Seq<char>)| p.0 != entity),
    {
        self.started = without_entity(&self.started, entity);
        self.missing = without_entity(&self.missing, entity);
    }

    /// Start a new session: nothing started or reported.
    pub fn reset(&mut self)
        ensures
            final(self).started() == Set::<(u64, Seq<char>)>::empty(),
            final(self).missing() == Set::<(u64, Seq<char>)>::empty(),
    {
        self.started.clear();
        self.missing.clear();
        assert(self.started() =~= Set::<(u64, Seq<char>)>::empty());
        assert(self.missing() =~= Set::<(u64, Seq<char>)>::empty());
    }
}

/// A script's start hook runs once per session: marking it started a second
/// time says it is not the first.
pub proof fn law_start_once(s0: ScriptSessions, s1: ScriptSessions, entity: u64, path: Seq<char>, second: bool)
    requires
        s1.started() == s0.started().insert((entity, path)),
        second == !s1.started().contains((entity, path)),
    ensures
        !second,
{
}

} // verus!
