use sindri::component::{
    component_kind, ComponentKind,
    decode_tile, default_camera_active, default_camera_pixel_perfect, default_layer_visible, encode_tile, BodyType,
    NavGridMode, Script, TileLayer, TilePalette, TileRect, Tilemap,
};

fn palette(solid: Vec<u16>) -> TilePalette {
    TilePalette {
        name: "p".to_string(),
        texture_path: "t.png".to_string(),
        tileset_cols: 4,
        tileset_rows: 3,
        margin: 0,
        spacing: 0,
        solid_tiles: solid,
    }
}

#[test]
fn encode_and_decode_tiles() {
    assert_eq!(encode_tile(0, 0), 0);
    assert_eq!(encode_tile(0, 5), 0);
    assert_eq!(encode_tile(1, 5), 0x0001_0005);
    assert_eq!(encode_tile(2, 0x1_0003), 0x0002_0003);
    assert_eq!(decode_tile(0x0001_0005), (1, 5));
    assert_eq!(decode_tile(0), (0, 0));
    assert_eq!(decode_tile(encode_tile(7, 300)), (7, 300));
}

#[test]
fn defaults() {
    assert!(default_camera_active());
    assert!(default_camera_pixel_perfect());
    assert!(default_layer_visible());
    assert_eq!(NavGridMode::default(), NavGridMode::TopDown8);
    assert_ne!(BodyType::Dynamic, BodyType::Fixed);
    let s = Script { path: "a.lua".to_string() };
    assert_eq!(s.path, "a.lua");
}

#[test]
fn palette_counts_and_solids() {
    let p = palette(vec![2, 7]);
    assert_eq!(p.tile_count(), 12);
    assert!(p.is_solid(7));
    assert!(!p.is_solid(3));
}

#[test]
fn layer_new_is_empty_and_visible() {
    let l = TileLayer::new("Ground", 6);
    assert_eq!(l.name, "Ground");
    assert_eq!(l.tiles, vec![0; 6]);
    assert!(l.visible);
    assert_eq!(l.z_index, 0);
}

#[test]
fn tilemap_default() {
    let m = Tilemap::default();
    assert_eq!((m.map_cols, m.map_rows), (20, 10));
    assert_eq!(m.layers.len(), 1);
    assert_eq!(m.layers[0].name, "Ground");
    assert_eq!(m.layers[0].tiles.len(), 200);
    assert!(m.palettes.is_empty());
}

fn map_3x2(cells: [u32; 6]) -> Tilemap {
    let mut layer = TileLayer::new("L", 6);
    layer.tiles = cells.to_vec();
    Tilemap { palettes: vec![palette(vec![1])], map_cols: 3, map_rows: 2, layers: vec![layer] }
}

#[test]
fn tile_solidity_through_palettes() {
    let s = encode_tile(1, 1);
    let n = encode_tile(1, 0);
    let bad = encode_tile(2, 1);
    let m = map_3x2([s, n, bad, 0, s, s]);
    assert!(m.is_tile_solid(0, 0));
    assert!(!m.is_tile_solid(1, 0));
    assert!(!m.is_tile_solid(2, 0));
    assert!(!m.is_tile_solid(0, 1));
    assert!(m.is_tile_solid(1, 1));
}

#[test]
fn solid_rects_merge_runs_downward() {
    let s = encode_tile(1, 1);
    let m = map_3x2([s, s, 0, s, s, s]);
    assert_eq!(
        m.solid_rects(),
        vec![
            TileRect { col: 0, row: 0, cols: 2, rows: 2 },
            TileRect { col: 2, row: 1, cols: 1, rows: 1 },
        ]
    );
    let empty = map_3x2([0; 6]);
    assert!(empty.solid_rects().is_empty());
}

#[test]
fn resize_map_keeps_shared_region() {
    let mut m = map_3x2([1, 2, 3, 4, 5, 6]);
    m.resize_map(Some(2), Some(3));
    assert_eq!((m.map_cols, m.map_rows), (2, 3));
    assert_eq!(m.layers[0].tiles, vec![1, 2, 4, 5, 0, 0]);
    m.resize_map(None, Some(0));
    assert_eq!((m.map_cols, m.map_rows), (2, 1));
    assert_eq!(m.layers[0].tiles, vec![1, 2]);
    m.resize_map(None, None);
    assert_eq!(m.layers[0].tiles, vec![1, 2]);
    assert_eq!(m.layers[0].name, "L");
}

#[test]
fn tile_source_of_cells() {
    let mut no_cols = palette(vec![]);
    no_cols.tileset_cols = 0;
    let tm = Tilemap {
        palettes: vec![palette(vec![]), no_cols],
        map_cols: 3,
        map_rows: 2,
        layers: vec![TileLayer {
            name: "l".to_string(),
            tiles: vec![0, encode_tile(1, 6), encode_tile(2, 5), encode_tile(3, 1), encode_tile(0, 4)],
            visible: true,
            z_index: 0,
        }],
    };
    assert_eq!(tm.tile_source(0, 0, 0), None);
    assert_eq!(tm.tile_source(0, 1, 0), Some((0, 2, 1)));
    assert_eq!(tm.tile_source(0, 2, 0), Some((1, 0, 5)));
    assert_eq!(tm.tile_source(0, 0, 1), None);
    assert_eq!(tm.tile_source(0, 1, 1), None);
    assert_eq!(tm.tile_source(0, 2, 1), None);
}

#[test]
fn component_kinds_by_name() {
    assert_eq!(component_kind("Camera"), Some(ComponentKind::Camera));
    assert_eq!(component_kind("AnimatedSprite"), Some(ComponentKind::AnimatedSprite));
    assert_eq!(component_kind("camera"), None);
    assert_eq!(component_kind(""), None);
    assert_eq!(ComponentKind::Tilemap.name(), "Tilemap");
    assert_eq!(component_kind(ComponentKind::AudioSource.name()), Some(ComponentKind::AudioSource));
}
