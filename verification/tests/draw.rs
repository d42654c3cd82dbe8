use sindri::draw::{build_draw_list, DrawItem, DrawKind, DrawSource, LayerInfo};

fn src(id: u64, z: i32, sprite: bool, anim: bool, physics: bool, layers: Option<Vec<LayerInfo>>) -> DrawSource {
    DrawSource { entity_id: id, z_index: z, has_sprite: sprite, has_anim: anim, has_physics: physics, tilemap_layers: layers }
}

fn item(z: i32, id: u64, kind: DrawKind) -> DrawItem {
    DrawItem { z, entity_id: id, kind }
}

fn scene_sources() -> Vec<DrawSource> {
    vec![
        src(7, 0, true, false, false, None),
        src(
            3,
            0,
            true,
            false,
            false,
            Some(vec![
                LayerInfo { visible: true, z_index: 0 },
                LayerInfo { visible: false, z_index: 5 },
                LayerInfo { visible: true, z_index: 2 },
                LayerInfo { visible: true, z_index: 0 },
            ]),
        ),
        src(5, -1, true, true, true, None),
        src(9, 2, false, false, true, None),
        src(4, 0, false, false, false, None),
    ]
}

#[test]
fn draw_list_sorted_by_z_then_entity() {
    let list = build_draw_list(&scene_sources());
    assert_eq!(
        list,
        vec![
            item(-1, 5, DrawKind::AnimSprite),
            item(0, 3, DrawKind::TilemapLayer(0)),
            item(0, 3, DrawKind::TilemapLayer(3)),
            item(0, 7, DrawKind::Sprite),
            item(2, 3, DrawKind::TilemapLayer(2)),
            item(2, 9, DrawKind::PhysicsOnly),
        ]
    );
}

#[test]
fn draw_list_ignores_source_order() {
    let a = scene_sources();
    let mut b = scene_sources();
    b.reverse();
    b.swap(0, 2);
    assert_eq!(build_draw_list(&a), build_draw_list(&b));
}

#[test]
fn draw_list_empty() {
    assert_eq!(build_draw_list(&vec![]), vec![]);
}
