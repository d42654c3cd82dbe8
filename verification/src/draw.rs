//! The order in which a scene's visuals are drawn: one item per sprite,
//! animated sprite or bare physics body, one per visible tile-map layer,
//! sorted by z index and then by entity so that the order never depends on
//! how the entities happen to be stored.
use vstd::prelude::*;
use vstd::relations::{sorted_by, total_ordering};

verus! {

/// What an item draws.
#[derive(Clone, Copy, Debug, PartialEq, Eq, Structural)]
pub enum DrawKind {
    Sprite,
    AnimSprite,
    /// The layer with this index of the entity's tile map.
    TilemapLayer(usize),
    /// A physics body with nothing else to show: drawn as a box.
    PhysicsOnly,
}

/// One thing to draw, at an effective z index.
#[derive(Clone, Copy, Debug, PartialEq, Eq, Structural)]
pub struct DrawItem {
    pub z: i32,
    pub entity_id: u64,
    pub kind: DrawKind,
}

/// A tile-map layer as far as the draw order needs it.
#[derive(Clone, Copy, Debug, PartialEq, Eq, Structural)]
pub struct LayerInfo {
    pub visible: bool,
    pub z_index: i32,
}

/// An entity with a transform, as far as the draw order needs it: its z
/// index, which visual components it has, and its tile map's layers.
#[derive(Clone, Debug)]
pub struct DrawSource {
    pub entity_id: u64,
    pub z_index: i32,
    pub has_sprite: bool,
    pub has_anim: bool,
    pub has_physics: bool,
    pub tilemap_layers: Option<Vec<LayerInfo>>,
}

/// Items of one entity with equal z are ordered animated sprite, sprite,
/// physics box, then tile-map layers by index.
pub open spec fn kind_rank(k: DrawKind) -> int {
    match k {
        DrawKind::AnimSprite => 0,
        DrawKind::Sprite => 1,
        DrawKind::PhysicsOnly => 2,
        DrawKind::TilemapLayer(i) => 3 + i,
    }
}

/// `a` is drawn no later than `b`: by z, then entity id, then kind.
pub open spec fn draw_le(a: DrawItem, b: DrawItem) -> bool {
    ||| a.z < b.z
    ||| a.z == b.z && a.entity_id < b.entity_id
    ||| a.z == b.z && a.entity_id == b.entity_id && kind_rank(a.kind) <= kind_rank(b.kind)
}

pub open spec fn draw_order() -> spec_fn(DrawItem, DrawItem) -> bool {
    |a: DrawItem, b: DrawItem| draw_le(a, b)
}

/// The items of the visible layers of a tile map, in layer order.
pub open spec fn layer_items(id: u64, z: i32, layers: Seq<LayerInfo>) -> Seq<DrawItem>
    decreases layers.len(),
{
    if layers.len() == 0 {
        Seq::empty()
    } else {
        let i = layers.len() - 1;
        layer_items(id, z, layers.drop_last()) + if layers[i].visible {
            seq![DrawItem { z: (z + layers[i].z_index) as i32, entity_id: id, kind: DrawKind::TilemapLayer(i as usize) }]
        } else {
            Seq::empty()
        }
    }
}

/// The items of one entity: its tile map's visible layers if it has a tile
/// map, else its animated sprite, else its sprite, else its physics box.
pub open spec fn source_items(s: DrawSource) -> Seq<DrawItem> {
    match s.tilemap_layers {
        Some(layers) => layer_items(s.entity_id, s.z_index, layers@),
        None => if s.has_anim {
            seq![DrawItem { z: s.z_index, entity_id: s.entity_id, kind: DrawKind::AnimSprite }]
        } else if s.has_sprite {
            seq![DrawItem { z: s.z_index, entity_id: s.entity_id, kind: DrawKind::Sprite }]
        } else if s.has_physics {
            seq![DrawItem { z: s.z_index, entity_id: s.entity_id, kind: DrawKind::PhysicsOnly }]
        } else {
            Seq::empty()
        },
    }
}

/// The items of all entities, unsorted.
pub open spec fn draw_items(srcs: Seq<DrawSource>) -> Seq<DrawItem>
    decreases srcs.len(),
{
    if srcs.len() == 0 {
        Seq::empty()
    } else {
        draw_items(srcs.drop_last()) + source_items(srcs.last())
    }
}

/// Every layer's effective z index (entity z plus layer z) fits in an `i32`.
pub open spec fn layer_z_fits(srcs: Seq<DrawSource>) -> bool {
    forall|k: int, i: int|
        0 <= k < srcs.len() && (#[trigger] srcs[k]).tilemap_layers is Some && 0 <= i < srcs[k].tilemap_layers->0@.len()
            ==> i32::MIN <= srcs[k].z_index + (#[trigger] srcs[k].tilemap_layers->0@[i]).z_index <= i32::MAX
}

/// The draw order is a total order.
pub proof fn lemma_draw_order_total()
    ensures
        total_ordering(draw_order()),
{
    let r = draw_order();
    assert forall|a: DrawItem, b: DrawItem| #[trigger] r(a, b) && #[trigger] r(b, a) implies a == b by {
        assert(kind_rank(a.kind) == kind_rank(b.kind));
        match a.kind {
            DrawKind::TilemapLayer(i) => {
                match b.kind {
                    DrawKind::TilemapLayer(j) => {
                        assert(i == j);
                    },
                    _ => {},
                }
            },
            _ => {},
        }
    }
}

fn kind_rank_exec(k: DrawKind) -> (r: u128)
    ensures
        r == kind_rank(k),
{
    match k {
        DrawKind::AnimSprite => 0,
        DrawKind::Sprite => 1,
        DrawKind::PhysicsOnly => 2,
        DrawKind::TilemapLayer(i) => i as u128 + 3,
    }
}

fn draw_le_exec(a: &DrawItem, b: &DrawItem) -> (r: bool)
    ensures
        r == draw_le(*a, *b),
{
    if a.z != b.z {
        a.z < b.z
    } else if a.entity_id != b.entity_id {
        a.entity_id < b.entity_id
    } else {
        kind_rank_exec(a.kind) <= kind_rank_exec(b.kind)
    }
}

/// Insert `item` after every item drawn no later than it.
fn insert_sorted(list: &mut Vec<DrawItem>, item: DrawItem)
    requires
        sorted_by(old(list)@, draw_order()),
    ensures
        sorted_by(final(list)@, draw_order()),
        final(list)@.to_multiset() == old(list)@.to_multiset().insert(item),
{
    proof {
        lemma_draw_order_total();
    }
    let mut p: usize = 0;
    while p < list.len() && draw_le_exec(&list[p], &item)
        invariant
            p <= list@.len(),
            forall|j: int| 0 <= j < p ==> draw_le(#[trigger] list@[j], item),
        decreases list@.len() - p,
    {
        p = p + 1;
    }
    let ghost before = list@;
    list.insert(p, item);
    proof {
        broadcast use vstd::seq_lib::group_to_multiset_ensures;
        let r = draw_order();
        assert(list@ =~= before.take(p as int).push(item) + before.skip(p as int));
        assert(list@.remove(p as int) =~= before);
        assert(list@.remove(p as int).to_multiset() == list@.to_multiset().remove(item));
        assert(list@.to_multiset().count(item) > 0) by {
            assert(list@[p as int] == item);
        }
        assert(list@.to_multiset() =~= before.to_multiset().insert(item));
        assert forall|i: int, j: int| 0 <= i < j < list@.len() implies #[trigger] r(list@[i], list@[j]) by {
            if j < p {
                assert(r(before[i], before[j]));
            } else if j == p {
                assert(draw_le(before[i], item));
            } else if i == p {
                // `item` comes before `before[p]`, which comes no later than `before[j - 1]`.
                assert(!draw_le(before[p as int], item));
                assert(r(item, before[p as int]));
                if j - 1 > p {
                    assert(r(before[p as int], before[j - 1]));
                }
            } else if i < p {
                assert(draw_le(before[i], item));
                assert(!draw_le(before[p as int], item));
                assert(r(item, before[p as int]));
                if j - 1 > p {
                    assert(r(before[p as int], before[j - 1]));
                }
            } else {
                assert(r(before[i - 1], before[j - 1]));
            }
        }
    }
}

/// The items to draw, in drawing order: sorted by (z, entity id), so the
/// order does not depend on the order of `sources`.
pub fn build_draw_list(sources: &Vec<DrawSource>) -> (r: Vec<DrawItem>)
    requires
        layer_z_fits(sources@),
    ensures
        sorted_by(r@, draw_order()),
        r@.to_multiset() == draw_items(sources@).to_multiset(),
{
    broadcast use vstd::seq_lib::group_to_multiset_ensures;
    let mut r: Vec<DrawItem> = Vec::new();
    let mut k: usize = 0;
    while k < sources.len()
        invariant
            k <= sources@.len(),
            layer_z_fits(sources@),
            sorted_by(r@, draw_order()),
            r@.to_multiset() == draw_items(sources@.take(k as int)).to_multiset(),
        decreases sources@.len() - k,
    {
        let s = &sources[k];
        let ghost done = draw_items(sources@.take(k as int));
        proof {
            assert(sources@.take(k + 1).drop_last() =~= sources@.take(k as int));
            assert(draw_items(sources@.take(k + 1)) == done + source_items(*s));
        }
        match &s.tilemap_layers {
            Some(layers) => {
                let mut i: usize = 0;
                while i < layers.len()
                    invariant
                        k < sources@.len(),
                        *s == sources@[k as int],
                        s.tilemap_layers == Some(*layers),
                        i <= layers@.len(),
                        layer_z_fits(sources@),
                        sorted_by(r@, draw_order()),
                        r@.to_multiset() == (done + layer_items(s.entity_id, s.z_index, layers@.take(i as int))).to_multiset(),
                    decreases layers@.len() - i,
                {
                    let ghost before = r@;
                    proof {
                        assert(layers@.take(i + 1).drop_last() =~= layers@.take(i as int));
                        assert(layers@.take(i + 1)[i as int] == layers@[i as int]);
                    }
                    let layer = layers[i];
                    if layer.visible {
                        proof {
                            assert(sources@[k as int].tilemap_layers->0@ == layers@);
                            assert(i32::MIN <= sources@[k as int].z_index + sources@[k as int].tilemap_layers->0@[i as int].z_index <= i32::MAX);
                        }
                        let item = DrawItem { z: s.z_index + layer.z_index, entity_id: s.entity_id, kind: DrawKind::TilemapLayer(i) };
                        insert_sorted(&mut r, item);
                        proof {
                            let acc = done + layer_items(s.entity_id, s.z_index, layers@.take(i as int));
                            assert(done + layer_items(s.entity_id, s.z_index, layers@.take(i + 1)) =~= acc.push(item));
                            vstd::seq_lib::to_multiset_build(acc, item);
                        }
                    } else {
                        proof {
                            let acc = done + layer_items(s.entity_id, s.z_index, layers@.take(i as int));
                            assert(done + layer_items(s.entity_id, s.z_index, layers@.take(i + 1)) =~= acc);
                        }
                    }
                    i = i + 1;
                }
                proof {
                    assert(layers@.take(layers@.len() as int) =~= layers@);
                    assert(source_items(*s) == layer_items(s.entity_id, s.z_index, layers@));
                }
            },
            None => {
                if s.has_anim {
                    let item = DrawItem { z: s.z_index, entity_id: s.entity_id, kind: DrawKind::AnimSprite };
                    insert_sorted(&mut r, item);
                    assert(done + source_items(*s) =~= done.push(item));
                    proof {
                        vstd::seq_lib::to_multiset_build(done, item);
                    }
                } else if s.has_sprite {
                    let item = DrawItem { z: s.z_index, entity_id: s.entity_id, kind: DrawKind::Sprite };
                    insert_sorted(&mut r, item);
                    assert(done + source_items(*s) =~= done.push(item));
                    proof {
                        vstd::seq_lib::to_multiset_build(done, item);
                    }
                } else if s.has_physics {
                    let item = DrawItem { z: s.z_index, entity_id: s.entity_id, kind: DrawKind::PhysicsOnly };
                    insert_sorted(&mut r, item);
                    assert(done + source_items(*s) =~= done.push(item));
                    proof {
                        vstd::seq_lib::to_multiset_build(done, item);
                    }
                } else {
                    assert(done + source_items(*s) =~= done);
                }
            },
        }
        k = k + 1;
    }
    proof {
        assert(sources@.take(sources@.len() as int) =~= sources@);
    }
    r
}

/// Taking one entity out of the list takes exactly its items out of the
/// unsorted items.
proof fn lemma_items_remove(srcs: Seq<DrawSource>, k: int)
    requires
        0 <= k < srcs.len(),
    ensures
        draw_items(srcs).to_multiset() == draw_items(srcs.remove(k)).to_multiset().add(source_items(srcs[k]).to_multiset()),
    decreases srcs.len(),
{
    broadcast use vstd::multiset::group_multiset_axioms;
    let last = srcs.last();
    vstd::seq_lib::lemma_multiset_commutative(draw_items(srcs.drop_last()), source_items(last));
    if k == srcs.len() - 1 {
        assert(srcs.remove(k) =~= srcs.drop_last());
    } else {
        let rest = srcs.drop_last();
        lemma_items_remove(rest, k);
        assert(srcs.remove(k).drop_last() =~= rest.remove(k));
        assert(srcs.remove(k).last() == last);
        vstd::seq_lib::lemma_multiset_commutative(draw_items(rest.remove(k)), source_items(last));
        assert(draw_items(srcs.remove(k)) == draw_items(rest.remove(k)) + source_items(last));
        assert(draw_items(srcs).to_multiset() =~= draw_items(srcs.remove(k)).to_multiset().add(source_items(srcs[k]).to_multiset()));
    }
}

/// Two lists of the same entities, in any order, have the same items.
proof fn lemma_items_permutation(a: Seq<DrawSource>, b: Seq<DrawSource>)
    requires
        a.to_multiset() == b.to_multiset(),
    ensures
        draw_items(a).to_multiset() == draw_items(b).to_multiset(),
    decreases a.len(),
{
    broadcast use vstd::seq_lib::group_to_multiset_ensures;
    broadcast use vstd::multiset::group_multiset_axioms;
    if a.len() == 0 {
        assert(a.to_multiset().len() == 0);
        assert(b.to_multiset().len() == b.len());
        assert(b.len() == 0);
        assert(b =~= a);
    } else {
        let x = a.last();
        assert(a.to_multiset().count(x) > 0) by {
            assert(a[a.len() - 1] == x);
        }
        assert(b.contains(x));
        let k = choose|k: int| 0 <= k < b.len() && b[k] == x;
        assert(a.drop_last() =~= a.remove(a.len() - 1));
        assert(a.drop_last().to_multiset() == b.remove(k).to_multiset());
        lemma_items_permutation(a.drop_last(), b.remove(k));
        lemma_items_remove(b, k);
        vstd::seq_lib::lemma_multiset_commutative(draw_items(a.drop_last()), source_items(x));
    }
}

/// The draw list depends only on which entities there are, not on the order
/// in which they are listed: two sorted lists of the items of the same
/// entities are equal.
pub proof fn law_draw_order_independent(a: Seq<DrawSource>, b: Seq<DrawSource>, ra: Seq<DrawItem>, rb: Seq<DrawItem>)
    requires
        a.to_multiset() == b.to_multiset(),
        sorted_by(ra, draw_order()),
        ra.to_multiset() == draw_items(a).to_multiset(),
        sorted_by(rb, draw_order()),
        rb.to_multiset() == draw_items(b).to_multiset(),
    ensures
        ra == rb,
{
    lemma_items_permutation(a, b);
    lemma_draw_order_total();
    vstd::seq_lib::lemma_sorted_unique(ra, rb, draw_order());
}

} // verus!
