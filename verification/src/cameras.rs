//! Which scene camera is active.
//!
//! A scene keeps at most one active camera. The rules work on the list of
//! camera components of a scene: for each, the entity that holds it, its
//! position among that entity's components, and whether it is active.
use vstd::prelude::*;

verus! {

/// A camera component of a scene.
#[derive(Clone, Copy, Debug, PartialEq, Eq, Structural)]
pub struct CameraRef {
    /// The entity that holds the camera.
    pub entity: u64,
    /// The camera's position among the entity's components.
    pub component: usize,
    /// Whether the camera is active.
    pub active: bool,
}

/// Camera `c` with its active flag set to `a`.
pub open spec fn with_active(c: CameraRef, a: bool) -> CameraRef {
    CameraRef { active: a, ..c }
}

/// Camera `a` comes no later than camera `b` in (entity, component) order.
pub open spec fn camera_le(a: CameraRef, b: CameraRef) -> bool {
    a.entity < b.entity || (a.entity == b.entity && a.component <= b.component)
}

/// `a` and `b` are the same component.
pub open spec fn same_camera(a: CameraRef, b: CameraRef) -> bool {
    a.entity == b.entity && a.component == b.component
}

/// Some camera of `cams` is active.
pub open spec fn any_active(cams: Seq<CameraRef>) -> bool {
    exists|j: int| 0 <= j < cams.len() && (#[trigger] cams[j]).active
}

/// Camera `i` is the one to keep active: the first active camera in
/// (entity, component) order, or the first camera when none is active.
pub open spec fn is_chosen(cams: Seq<CameraRef>, i: int) -> bool {
    &&& 0 <= i < cams.len()
    &&& any_active(cams) ==> cams[i].active && forall|j: int| 0 <= j < cams.len() && (#[trigger] cams[j]).active ==> camera_le(cams[i], cams[j])
    &&& !any_active(cams) ==> forall|j: int| 0 <= j < cams.len() ==> camera_le(cams[i], #[trigger] cams[j])
}

/// `after` is `before` with the active flag of each camera set by `active`.
pub open spec fn flags_set(before: Seq<CameraRef>, after: Seq<CameraRef>, active: spec_fn(CameraRef) -> bool) -> bool {
    &&& after.len() == before.len()
    &&& forall|j: int| 0 <= j < before.len() ==> #[trigger] after[j] == with_active(before[j], active(before[j]))
}

/// Whether some camera is active.
pub fn has_active_camera(cams: &Vec<CameraRef>) -> (b: bool)
    ensures
        b == any_active(cams@),
{
    let mut i: usize = 0;
    while i < cams.len()
        invariant
            i <= cams@.len(),
            forall|j: int| 0 <= j < i ==> !(#[trigger] cams@[j]).active,
        decreases cams@.len() - i,
    {
        if cams[i].active {
            return true;
        }
        i = i + 1;
    }
    false
}

/// Set the active flag of every camera to `f(camera)`.
fn set_flags(cams: &mut Vec<CameraRef>, entity: u64, component: usize, mode: u8)
    requires
        mode < 3,
    ensures
        flags_set(old(cams)@, final(cams)@, |c: CameraRef| flag_rule(c, entity, component, mode)),
{
    let ghost before = cams@;
    let mut i: usize = 0;
    while i < cams.len()
        invariant
            mode < 3,
            cams@.len() == before.len(),
            i <= cams@.len(),
            forall|j: int| 0 <= j < i ==> #[trigger] cams@[j] == with_active(before[j], flag_rule(before[j], entity, component, mode)),
            forall|j: int| i <= j < cams@.len() ==> #[trigger] cams@[j] == before[j],
        decreases cams@.len() - i,
    {
        let c = cams[i];
        let active = if mode == 0 {
            c.active && c.entity == entity && c.component == component
        } else if mode == 1 {
            c.entity == entity && c.component == component
        } else {
            c.entity == entity
        };
        cams.set(i, CameraRef { active, ..c });
        i = i + 1;
    }
}

/// The flag rules: keep only the given camera's flag (0), make exactly the
/// given camera active (1), make exactly the given entity's cameras active (2).
pub open spec fn flag_rule(c: CameraRef, entity: u64, component: usize, mode: u8) -> bool {
    if mode == 0 {
        c.active && c.entity == entity && c.component == component
    } else if mode == 1 {
        c.entity == entity && c.component == component
    } else {
        c.entity == entity
    }
}

/// Deactivate every camera but the one at position `active_component_idx`
/// of entity `active_entity` (whose flag is kept).
pub fn deactivate_other_cameras(cams: &mut Vec<CameraRef>, active_entity: u64, active_component_idx: usize)
    ensures
        flags_set(old(cams)@, final(cams)@, |c: CameraRef| c.active && c.entity == active_entity && c.component == active_component_idx),
{
    set_flags(cams, active_entity, active_component_idx, 0);
    proof {
        assert forall|j: int| 0 <= j < old(cams)@.len() implies #[trigger] cams@[j] == with_active(
            old(cams)@[j],
            old(cams)@[j].active && old(cams)@[j].entity == active_entity && old(cams)@[j].component == active_component_idx,
        ) by {
            assert(cams@[j] == with_active(old(cams)@[j], flag_rule(old(cams)@[j], active_entity, active_component_idx, 0)));
        }
    }
}

/// Keep exactly one camera active: the first active one in (entity,
/// component) order, or the first one when none is active. A scene without
/// cameras is left as it is.
pub fn normalize_scene_cameras(cams: &mut Vec<CameraRef>)
    ensures
        old(cams)@.len() == 0 ==> final(cams)@ == old(cams)@,
        old(cams)@.len() > 0 ==> exists|i: int| #[trigger] is_chosen(old(cams)@, i)
            && flags_set(old(cams)@, final(cams)@, |c: CameraRef| same_camera(c, old(cams)@[i])),
{
    if cams.len() == 0 {
        return;
    }
    let any = has_active_camera(cams);
    let mut best: usize = 0;
    let mut found = false;
    let mut i: usize = 0;
    while i < cams.len()
        invariant
            cams@ == old(cams)@,
            cams@.len() > 0,
            any == any_active(cams@),
            i <= cams@.len(),
            best < cams@.len(),
            any ==> (found == exists|j: int| 0 <= j < i && (#[trigger] cams@[j]).active),
            any && found ==> cams@[best as int].active,
            any && found ==> forall|j: int| 0 <= j < i && (#[trigger] cams@[j]).active ==> camera_le(cams@[best as int], cams@[j]),
            !any ==> i > 0 ==> forall|j: int| 0 <= j < i ==> camera_le(cams@[best as int], #[trigger] cams@[j]),
        decreases cams@.len() - i,
    {
        let c = cams[i];
        let b = cams[best];
        let earlier = c.entity < b.entity || (c.entity == b.entity && c.component < b.component);
        if any {
            if c.active && (!found || earlier) {
                best = i;
                found = true;
            }
        } else if i == 0 || earlier {
            best = i;
        }
        i = i + 1;
    }
    proof {
        assert(is_chosen(old(cams)@, best as int));
    }
    let chosen = cams[best];
    set_flags(cams, chosen.entity, chosen.component, 1);
    proof {
        let o = old(cams)@;
        assert forall|j: int| 0 <= j < o.len() implies #[trigger] cams@[j] == with_active(o[j], same_camera(o[j], o[best as int])) by {
            assert(cams@[j] == with_active(o[j], flag_rule(o[j], chosen.entity, chosen.component, 1)));
        }
    }
}

/// Turn the cameras of `entity_id` on or off: switching on makes exactly the
/// cameras of that entity active; switching off deactivates them and leaves
/// the others as they are. Then keep exactly one camera active (see
/// `normalize_scene_cameras`).
pub fn set_camera_active(cams: &mut Vec<CameraRef>, entity_id: u64, active: bool)
    ensures
        exists|mid: Seq<CameraRef>| {
            &&& (active ==> flags_set(old(cams)@, mid, |c: CameraRef| c.entity == entity_id))
            &&& (!active ==> flags_set(old(cams)@, mid, |c: CameraRef| c.active && c.entity != entity_id))
            &&& (mid.len() == 0 ==> final(cams)@ == mid)
            &&& (mid.len() > 0 ==> exists|i: int| #[trigger] is_chosen(mid, i)
                && flags_set(mid, final(cams)@, |c: CameraRef| same_camera(c, mid[i])))
        },
{
    let ghost o = cams@;
    if active {
        set_flags(cams, entity_id, 0, 2);
        proof {
            assert forall|j: int| 0 <= j < o.len() implies #[trigger] cams@[j] == with_active(o[j], o[j].entity == entity_id) by {
                assert(cams@[j] == with_active(o[j], flag_rule(o[j], entity_id, 0, 2)));
            }
        }
    } else {
        let mut i: usize = 0;
        while i < cams.len()
            invariant
                cams@.len() == o.len(),
                i <= cams@.len(),
                forall|j: int| 0 <= j < i ==> #[trigger] cams@[j] == with_active(o[j], o[j].active && o[j].entity != entity_id),
                forall|j: int| i <= j < cams@.len() ==> #[trigger] cams@[j] == o[j],
            decreases cams@.len() - i,
        {
            let c = cams[i];
            cams.set(i, CameraRef { active: c.active && c.entity != entity_id, ..c });
            i = i + 1;
        }
    }
    let ghost mid = cams@;
    normalize_scene_cameras(cams);
}

/// No two cameras of the list are the same component.
pub open spec fn distinct_cameras(cams: Seq<CameraRef>) -> bool {
    forall|i: int, j: int| 0 <= i < cams.len() && 0 <= j < cams.len() && i != j ==> !same_camera(#[trigger] cams[i], #[trigger] cams[j])
}

/// After normalizing a scene that has cameras, exactly one camera is active.
pub proof fn law_one_active_camera(before: Seq<CameraRef>, after: Seq<CameraRef>, i: int)
    requires
        distinct_cameras(before),
        is_chosen(before, i),
        flags_set(before, after, |c: CameraRef| same_camera(c, before[i])),
    ensures
        after[i].active,
        forall|j: int| 0 <= j < after.len() && j != i ==> !(#[trigger] after[j]).active,
{
    assert(after[i] == with_active(before[i], same_camera(before[i], before[i])));
    assert forall|j: int| 0 <= j < after.len() && j != i implies !(#[trigger] after[j]).active by {
        assert(after[j] == with_active(before[j], same_camera(before[j], before[i])));
        assert(!same_camera(before[j], before[i]));
    }
}

} // verus!
