//! Renderer-facing handles and the cell data of rendered tile maps.
use vstd::prelude::*;

verus! {

/// Opaque handle used to reference textures owned by the renderer.
#[derive(Clone, Copy, Debug, PartialEq, Eq, Structural, Hash)]
pub struct TextureHandle(pub u32);

impl TextureHandle {
    pub fn new(id: u32) -> (h: Self)
        ensures
            h.0 == id,
    {
        TextureHandle(id)
    }
}

/// A font loaded and ready for text rendering.
#[derive(Clone, Copy, Debug, PartialEq, Eq, Structural, Hash)]
pub struct FontHandle(pub u32);

/// Handle to a shared animation resource.
#[derive(Clone, Copy, Debug, PartialEq, Eq, Structural, Hash)]
pub struct AnimationHandle(pub u32);

/// Where an animation stands: the frame shown, how often it wrapped around
/// to its first frame, and whether it is still playing.
#[derive(Clone, Copy, Debug, PartialEq, Eq, Structural)]
pub struct AnimationCursor {
    pub current_frame_index: usize,
    pub loop_count: usize,
    pub playing: bool,
}

impl AnimationCursor {
    /// At the first frame, playing.
    pub fn new() -> (c: Self)
        ensures
            c.current_frame_index == 0,
            c.loop_count == 0,
            c.playing,
    {
        AnimationCursor { current_frame_index: 0, loop_count: 0, playing: true }
    }

    /// The time of the current frame of an animation of `frame_count` frames
    /// is up: move to the next frame; past the last one a looping animation
    /// starts over (counting the loop) and any other stops on its last frame.
    pub fn advance(&mut self, frame_count: usize, looping: bool)
        requires
            old(self).current_frame_index < frame_count,
            looping && old(self).current_frame_index + 1 == frame_count ==> old(self).loop_count < usize::MAX,
        ensures
            old(self).current_frame_index + 1 < frame_count ==> *final(self) == (AnimationCursor {
                current_frame_index: (old(self).current_frame_index + 1) as usize,
                ..*old(self)
            }),
            old(self).current_frame_index + 1 == frame_count && looping ==> *final(self) == (AnimationCursor {
                current_frame_index: 0,
                loop_count: (old(self).loop_count + 1) as usize,
                playing: old(self).playing,
            }),
            old(self).current_frame_index + 1 == frame_count && !looping ==> *final(self) == (AnimationCursor {
                current_frame_index: (frame_count - 1) as usize,
                loop_count: old(self).loop_count,
                playing: false,
            }),
    {
        self.current_frame_index = self.current_frame_index + 1;
        if self.current_frame_index >= frame_count {
            if looping {
                self.current_frame_index = 0;
                self.loop_count = self.loop_count + 1;
            } else {
                self.current_frame_index = frame_count - 1;
                self.playing = false;
            }
        }
    }

    /// Back to the first frame, playing; the loop count is kept.
    pub fn reset(&mut self)
        ensures
            final(self).current_frame_index == 0,
            final(self).playing,
            final(self).loop_count == old(self).loop_count,
    {
        self.current_frame_index = 0;
        self.playing = true;
    }
}

/// The (column, row) of frame `i` in a spritesheet `cols` frames wide, laid
/// out row by row from the top left.
pub fn grid_frame_cell(i: u32, cols: u32) -> (r: (u32, u32))
    requires
        cols > 0,
    ensures
        r.0 == i % cols,
        r.1 == i / cols,
{
    (i % cols, i / cols)
}

/// Horizontal alignment of HUD text.
#[derive(Clone, Copy, Debug, PartialEq, Eq, Structural)]
pub enum TextAlign {
    Left,
    Center,
    Right,
}

/// A single tile in a tilemap.
#[derive(Clone, Copy, Debug, PartialEq, Eq, Structural)]
pub struct Tile {
    /// Tile ID (index into tileset, 0 = empty/no tile).
    pub id: u32,
}

impl Tile {
    pub fn new(id: u32) -> (t: Self)
        ensures
            t.id == id,
    {
        Tile { id }
    }

    pub fn empty() -> (t: Self)
        ensures
            t.id == 0,
    {
        Tile { id: 0 }
    }

    pub fn is_empty(&self) -> (b: bool)
        ensures
            b == (self.id == 0),
    {
        self.id == 0
    }
}

/// The cells of a rendered tile map: the tileset (and its size in tiles), the
/// map size in tiles, and the tiles row by row.
#[derive(Debug)]
pub struct Tilemap {
    /// The tileset texture (all tile graphics in a grid).
    pub tileset: TextureHandle,
    /// Number of tiles in the tileset (columns, rows).
    pub tileset_size: (u32, u32),
    /// Map dimensions (width, height) in tiles.
    pub map_size: (u32, u32),
    /// Tile data (row-major: [y * width + x]).
    pub tiles: Vec<Tile>,
}

impl Tilemap {
    pub open spec fn wf(&self) -> bool {
        &&& self.tiles@.len() == self.map_size.0 * self.map_size.1
        &&& self.map_size.0 * self.map_size.1 <= u32::MAX
    }

    /// The tiles, row by row.
    pub open spec fn tiles(&self) -> Seq<Tile> {
        self.tiles@
    }

    /// The tile at (x, y) of an in-bounds position.
    pub open spec fn tile_at(&self, x: int, y: int) -> Tile {
        self.tiles()[y * self.map_size.0 + x]
    }

    /// Create a new empty tilemap.
    pub fn new(tileset: TextureHandle, tileset_size: (u32, u32), map_size: (u32, u32)) -> (m: Self)
        requires
            map_size.0 * map_size.1 <= u32::MAX,
        ensures
            m.wf(),
            m.tileset == tileset,
            m.tileset_size == tileset_size,
            m.map_size == map_size,
            forall|i: int| 0 <= i < m.tiles().len() ==> #[trigger] m.tiles()[i] == Tile::empty_spec(),
    {
        let (width, height) = map_size;
        let n = (width * height) as usize;
        let mut tiles: Vec<Tile> = Vec::new();
        let mut i: usize = 0;
        while i < n
            invariant
                i <= n,
                n == width * height,
                tiles@.len() == i,
                forall|j: int| 0 <= j < i ==> #[trigger] tiles@[j] == Tile::empty_spec(),
            decreases n - i,
        {
            tiles.push(Tile::empty());
            i = i + 1;
        }
        Tilemap { tileset, tileset_size, map_size, tiles }
    }

    /// Set the tile at (x, y); positions outside the map are ignored.
    pub fn set_tile(&mut self, x: u32, y: u32, tile_id: u32)
        requires
            old(self).wf(),
        ensures
            final(self).wf(),
            final(self).map_size == old(self).map_size,
            final(self).tileset == old(self).tileset,
            final(self).tileset_size == old(self).tileset_size,
            x < old(self).map_size.0 && y < old(self).map_size.1 ==> final(self).tiles() == old(self).tiles().update(
                y * old(self).map_size.0 + x,
                Tile { id: tile_id },
            ),
            !(x < old(self).map_size.0 && y < old(self).map_size.1) ==> final(self).tiles() == old(self).tiles(),
    {
        let (width, height) = self.map_size;
        if x < width && y < height {
            proof {
                crate::pathfinding::lemma_cell_index(width as int, height as int, x as int, y as int);
            }
            let index = (y * width + x) as usize;
            self.tiles.set(index, Tile::new(tile_id));
        }
    }

    /// The tile at (x, y), or `None` outside the map.
    pub fn get_tile(&self, x: u32, y: u32) -> (r: Option<Tile>)
        requires
            self.wf(),
        ensures
            x < self.map_size.0 && y < self.map_size.1 ==> r == Some(self.tile_at(x as int, y as int)),
            !(x < self.map_size.0 && y < self.map_size.1) ==> r is None,
    {
        let (width, height) = self.map_size;
        if x < width && y < height {
            proof {
                crate::pathfinding::lemma_cell_index(width as int, height as int, x as int, y as int);
            }
            let index = (y * width + x) as usize;
            Some(self.tiles[index])
        } else {
            None
        }
    }

    /// Fill a rectangle with a tile ID (cells outside the map are skipped).
    pub fn fill_rect(&mut self, x: u32, y: u32, width: u32, height: u32, tile_id: u32)
        requires
            old(self).wf(),
            x + width <= u32::MAX,
            y + height <= u32::MAX,
        ensures
            final(self).wf(),
            final(self).map_size == old(self).map_size,
            final(self).tileset == old(self).tileset,
            final(self).tileset_size == old(self).tileset_size,
            forall|cx: int, cy: int| 0 <= cx < old(self).map_size.0 && 0 <= cy < old(self).map_size.1 ==>
                #[trigger] final(self).tile_at(cx, cy) == (if x <= cx < x + width && y <= cy < y + height {
                    Tile { id: tile_id }
                } else {
                    old(self).tile_at(cx, cy)
                }),
    {
        let ghost w = self.map_size.0 as int;
        let ghost h = self.map_size.1 as int;
        let mut dy: u32 = 0;
        while dy < height
            invariant
                self.wf(),
                self.map_size == old(self).map_size,
                self.tileset == old(self).tileset,
                self.tileset_size == old(self).tileset_size,
                w == self.map_size.0,
                h == self.map_size.1,
                x + width <= u32::MAX,
                y + height <= u32::MAX,
                dy <= height,
                forall|cx: int, cy: int| 0 <= cx < w && 0 <= cy < h ==>
                    #[trigger] self.tile_at(cx, cy) == (if x <= cx < x + width && y <= cy < y + dy {
                        Tile { id: tile_id }
                    } else {
                        old(self).tile_at(cx, cy)
                    }),
            decreases height - dy,
        {
            let mut dx: u32 = 0;
            while dx < width
                invariant
                    self.wf(),
                    self.map_size == old(self).map_size,
                    self.tileset == old(self).tileset,
                    self.tileset_size == old(self).tileset_size,
                    w == self.map_size.0,
                    h == self.map_size.1,
                    x + width <= u32::MAX,
                    y + height <= u32::MAX,
                    dy < height,
                    dx <= width,
                    forall|cx: int, cy: int| 0 <= cx < w && 0 <= cy < h ==>
                        #[trigger] self.tile_at(cx, cy) == (if (x <= cx < x + width && y <= cy < y + dy) || (x <= cx < x + dx && cy == y + dy) {
                            Tile { id: tile_id }
                        } else {
                            old(self).tile_at(cx, cy)
                        }),
                decreases width - dx,
            {
                let ghost before = *self;
                let px = x + dx;
                let py = y + dy;
                self.set_tile(px, py, tile_id);
                proof {
                    assert forall|cx: int, cy: int| 0 <= cx < w && 0 <= cy < h implies
                        #[trigger] self.tile_at(cx, cy) == (if (x <= cx < x + width && y <= cy < y + dy) || (x <= cx < x + dx + 1 && cy == y + dy) {
                            Tile { id: tile_id }
                        } else {
                            old(self).tile_at(cx, cy)
                        }) by {
                        crate::pathfinding::lemma_cell_index(w, h, cx, cy);
                        assert(before.tile_at(cx, cy) == (if (x <= cx < x + width && y <= cy < y + dy) || (x <= cx < x + dx && cy == y + dy) {
                            Tile { id: tile_id }
                        } else {
                            old(self).tile_at(cx, cy)
                        }));
                        if px < w && py < h {
                            crate::pathfinding::lemma_cell_index(w, h, px as int, py as int);
                            if cy * w + cx == py * w + px {
                                crate::pathfinding::lemma_cell_index_injective(w, cx, cy, px as int, py as int);
                            }
                        }
                    }
                }
                dx = dx + 1;
            }
            dy = dy + 1;
        }
    }

    /// The tileset cell (column, row) of a tile ID: tile 1 is the first
    /// cell; `None` for the empty tile and for IDs past the tileset.
    pub fn tile_cell(&self, tile_id: u32) -> (r: Option<(u32, u32)>)
        requires
            self.tileset_size.0 * self.tileset_size.1 <= u32::MAX,
        ensures
            tile_id == 0 ==> r is None,
            tile_id != 0 && tile_id - 1 >= self.tileset_size.0 * self.tileset_size.1 ==> r is None,
            tile_id != 0 && tile_id - 1 < self.tileset_size.0 * self.tileset_size.1 ==> r == Some((
                ((tile_id - 1) as int % self.tileset_size.0 as int) as u32,
                ((tile_id - 1) as int / self.tileset_size.0 as int) as u32,
            )),
    {
        if tile_id == 0 {
            return None;
        }
        let (cols, rows) = self.tileset_size;
        let tile_index = tile_id - 1;
        if tile_index >= cols * rows {
            return None;
        }
        Some((tile_index % cols, tile_index / cols))
    }
}

impl Tile {
    pub open spec fn empty_spec() -> Tile {
        Tile { id: 0 }
    }
}

} // verus!
