use sindri::render::{grid_frame_cell, AnimationCursor, AnimationHandle, FontHandle, TextAlign, TextureHandle, Tile, Tilemap};

#[test]
fn tiles() {
    assert!(Tile::empty().is_empty());
    assert!(!Tile::new(3).is_empty());
    assert_eq!(Tile::new(3).id, 3);
}

#[test]
fn handles() {
    assert_eq!(TextureHandle::new(4), TextureHandle(4));
    assert_ne!(FontHandle(1), FontHandle(2));
    assert_eq!(AnimationHandle(7).0, 7);
    assert_ne!(TextAlign::Left, TextAlign::Right);
}

#[test]
fn tilemap_set_get_fill() {
    let mut m = Tilemap::new(TextureHandle(1), (4, 2), (3, 2));
    assert_eq!(m.tiles.len(), 6);
    assert_eq!(m.get_tile(2, 1), Some(Tile::empty()));
    m.set_tile(2, 1, 5);
    assert_eq!(m.get_tile(2, 1), Some(Tile::new(5)));
    m.set_tile(3, 0, 9);
    assert_eq!(m.get_tile(3, 0), None);
    m.fill_rect(1, 0, 5, 1, 2);
    assert_eq!(m.get_tile(0, 0), Some(Tile::empty()));
    assert_eq!(m.get_tile(1, 0), Some(Tile::new(2)));
    assert_eq!(m.get_tile(2, 0), Some(Tile::new(2)));
    assert_eq!(m.get_tile(2, 1), Some(Tile::new(5)));
}

#[test]
fn tileset_cells() {
    let m = Tilemap::new(TextureHandle(1), (4, 2), (1, 1));
    assert_eq!(m.tile_cell(0), None);
    assert_eq!(m.tile_cell(1), Some((0, 0)));
    assert_eq!(m.tile_cell(6), Some((1, 1)));
    assert_eq!(m.tile_cell(8), Some((3, 1)));
    assert_eq!(m.tile_cell(9), None);
}

#[test]
fn animation_cursor_loops_or_stops() {
    let mut c = AnimationCursor::new();
    assert_eq!((c.current_frame_index, c.loop_count, c.playing), (0, 0, true));
    c.advance(3, true);
    c.advance(3, true);
    assert_eq!(c.current_frame_index, 2);
    c.advance(3, true);
    assert_eq!((c.current_frame_index, c.loop_count, c.playing), (0, 1, true));
    let mut d = AnimationCursor::new();
    d.advance(2, false);
    d.advance(2, false);
    assert_eq!((d.current_frame_index, d.loop_count, d.playing), (1, 0, false));
    d.reset();
    assert_eq!((d.current_frame_index, d.loop_count, d.playing), (0, 0, true));
}

#[test]
fn grid_frame_cells_row_by_row() {
    assert_eq!(grid_frame_cell(0, 4), (0, 0));
    assert_eq!(grid_frame_cell(5, 4), (1, 1));
    assert_eq!(grid_frame_cell(11, 4), (3, 2));
}
