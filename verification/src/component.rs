//! Scene component data: tile palettes, layered tile maps and their solid
//! regions, and small enums of the scene format.
use vstd::prelude::*;
use crate::pathfinding::cell_index;

verus! {

/// Rigid body kind of a physics body component.
#[derive(Clone, Copy, Debug, PartialEq, Eq, Structural)]
pub enum BodyType {
    Dynamic,
    Kinematic,
    Fixed,
}

/// Script component: the path of the script file.
#[derive(Clone, Debug)]
pub struct Script {
    pub path: String,
}

/// Pathfinding mode for a nav grid.
#[derive(Clone, Copy, Debug, PartialEq, Eq, Structural)]
pub enum NavGridMode {
    TopDown8,
    TopDown4,
    Platformer,
}

impl Default for NavGridMode {
    fn default() -> (m: Self)
        ensures
            m == NavGridMode::TopDown8,
    {
        NavGridMode::TopDown8
    }
}

/// Cameras are active unless the scene says otherwise.
pub fn default_camera_active() -> (b: bool)
    ensures
        b,
{
    true
}

/// Cameras snap to whole pixels unless the scene says otherwise.
pub fn default_camera_pixel_perfect() -> (b: bool)
    ensures
        b,
{
    true
}

/// Tile layers are visible unless the scene says otherwise.
pub fn default_layer_visible() -> (b: bool)
    ensures
        b,
{
    true
}

/// The cell value holding tile `tile_idx` of palette `palette_id`: the palette
/// in the upper 16 bits, the tile in the lower 16 bits; 0 (empty) for palette 0.
pub open spec fn tile_code(palette_id: u32, tile_idx: u32) -> u32 {
    if palette_id == 0 { 0 } else { ((palette_id % 0x10000) * 0x10000 + tile_idx % 0x10000) as u32 }
}

/// Encode a (palette_id, tile_idx) pair into a u32 cell value.
/// palette_id is 1-indexed (1 = first palette); tile_idx is 0-indexed within the palette.
/// Returns 0 (empty) if palette_id is 0.
pub fn encode_tile(palette_id: u32, tile_idx: u32) -> (v: u32)
    ensures
        v == tile_code(palette_id, tile_idx),
{
    if palette_id == 0 {
        return 0;
    }
    let v = (palette_id << 16) | (tile_idx & 0xFFFF);
    assert(v == ((palette_id % 0x10000) * 0x10000 + tile_idx % 0x10000) as u32) by (bit_vector)
        requires
            v == (palette_id << 16) | (tile_idx & 0xFFFF),
    ;
    v
}

/// Decode a u32 cell value into (palette_id, tile_idx); (0, 0) for empty cells.
pub fn decode_tile(v: u32) -> (r: (u32, u32))
    ensures
        r.0 == v / 0x10000,
        r.1 == v % 0x10000,
{
    let p = v >> 16;
    let t = v & 0xFFFF;
    assert(p == v / 0x10000 && t == v % 0x10000) by (bit_vector)
        requires
            p == v >> 16,
            t == v & 0xFFFF,
    ;
    (p, t)
}

/// Decoding an encoded tile gives back its palette and tile (both below
/// 2^16, the palette not 0); palette 0 encodes to the empty value.
pub proof fn law_decode_encode(palette_id: u32, tile_idx: u32)
    requires
        palette_id < 0x10000,
        tile_idx < 0x10000,
    ensures
        palette_id == 0 ==> tile_code(palette_id, tile_idx) == 0,
        palette_id != 0 ==> tile_code(palette_id, tile_idx) / 0x10000 == palette_id,
        palette_id != 0 ==> tile_code(palette_id, tile_idx) % 0x10000 == tile_idx,
{
    assert(((palette_id % 0x10000) * 0x10000 + tile_idx % 0x10000) as u32 / 0x10000 == palette_id
        && ((palette_id % 0x10000) * 0x10000 + tile_idx % 0x10000) as u32 % 0x10000 == tile_idx) by (bit_vector)
        requires
            palette_id < 0x10000,
            tile_idx < 0x10000,
    ;
}

/// Encoding the decoded parts of a cell value gives back the value, for the
/// empty value and every value that names a palette.
pub proof fn law_encode_decode(v: u32)
    requires
        v == 0 || v / 0x10000 != 0,
    ensures
        tile_code(v / 0x10000, v % 0x10000) == v,
{
    if v == 0 {
        return;
    }
    assert((((v / 0x10000) % 0x10000) * 0x10000 + (v % 0x10000) % 0x10000) as u32 == v) by (bit_vector);
}

/// The kinds of component a scene entity can hold.
#[derive(Clone, Copy, Debug, PartialEq, Eq, Structural)]
pub enum ComponentKind {
    Transform,
    Sprite,
    AnimatedSprite,
    Tilemap,
    PhysicsBody,
    Collider,
    Script,
    Camera,
    AudioSource,
}

/// The name by which requests refer to a component kind.
pub open spec fn kind_name(k: ComponentKind) -> Seq<char> {
    match k {
        ComponentKind::Transform => "Transform"@,
        ComponentKind::Sprite => "Sprite"@,
        ComponentKind::AnimatedSprite => "AnimatedSprite"@,
        ComponentKind::Tilemap => "Tilemap"@,
        ComponentKind::PhysicsBody => "PhysicsBody"@,
        ComponentKind::Collider => "Collider"@,
        ComponentKind::Script => "Script"@,
        ComponentKind::Camera => "Camera"@,
        ComponentKind::AudioSource => "AudioSource"@,
    }
}

impl ComponentKind {
    /// The name by which requests refer to this kind.
    pub fn name(&self) -> (r: &'static str)
        ensures
            r@ == kind_name(*self),
    {
        match self {
            ComponentKind::Transform => "Transform",
            ComponentKind::Sprite => "Sprite",
            ComponentKind::AnimatedSprite => "AnimatedSprite",
            ComponentKind::Tilemap => "Tilemap",
            ComponentKind::PhysicsBody => "PhysicsBody",
            ComponentKind::Collider => "Collider",
            ComponentKind::Script => "Script",
            ComponentKind::Camera => "Camera",
            ComponentKind::AudioSource => "AudioSource",
        }
    }
}

/// The component kind that `name` refers to, if any.
pub fn component_kind(name: &str) -> (r: Option<ComponentKind>)
    ensures
        r matches Some(k) ==> kind_name(k) == name@,
        r is None ==> forall|k: ComponentKind| kind_name(k) != name@,
{
    if crate::patching::str_eq(name, "Transform") {
        return Some(ComponentKind::Transform);
    }
    if crate::patching::str_eq(name, "Sprite") {
        return Some(ComponentKind::Sprite);
    }
    if crate::patching::str_eq(name, "AnimatedSprite") {
        return Some(ComponentKind::AnimatedSprite);
    }
    if crate::patching::str_eq(name, "Tilemap") {
        return Some(ComponentKind::Tilemap);
    }
    if crate::patching::str_eq(name, "PhysicsBody") {
        return Some(ComponentKind::PhysicsBody);
    }
    if crate::patching::str_eq(name, "Collider") {
        return Some(ComponentKind::Collider);
    }
    if crate::patching::str_eq(name, "Script") {
        return Some(ComponentKind::Script);
    }
    if crate::patching::str_eq(name, "Camera") {
        return Some(ComponentKind::Camera);
    }
    if crate::patching::str_eq(name, "AudioSource") {
        return Some(ComponentKind::AudioSource);
    }
    None
}

/// A tile palette (tileset texture and its metadata) used by a tile map.
#[derive(Clone, Debug)]
pub struct TilePalette {
    /// Display name.
    pub name: String,
    pub texture_path: String,
    /// Columns in the tileset texture.
    pub tileset_cols: u32,
    /// Rows in the tileset texture.
    pub tileset_rows: u32,
    /// Pixel border around the tileset edge.
    pub margin: u32,
    /// Pixel gap between tiles.
    pub spacing: u32,
    /// 0-based tile indices within this palette that are solid.
    pub solid_tiles: Vec<u16>,
}

impl TilePalette {
    /// The number of tiles in the tileset.
    pub fn tile_count(&self) -> (n: u32)
        requires
            self.tileset_cols * self.tileset_rows <= u32::MAX,
        ensures
            n == self.tileset_cols * self.tileset_rows,
    {
        self.tileset_cols * self.tileset_rows
    }

    /// Whether tile `t` of this palette is solid.
    pub fn is_solid(&self, t: u16) -> (b: bool)
        ensures
            b == self.solid_tiles@.contains(t),
    {
        let mut i: usize = 0;
        while i < self.solid_tiles.len()
            invariant
                i <= self.solid_tiles@.len(),
                forall|j: int| 0 <= j < i ==> self.solid_tiles@[j] != t,
            decreases self.solid_tiles@.len() - i,
        {
            if self.solid_tiles[i] == t {
                return true;
            }
            i = i + 1;
        }
        false
    }
}

/// One layer of a tile map: a row-major cell array (0 = empty).
#[derive(Clone, Debug)]
pub struct TileLayer {
    pub name: String,
    /// Flat tile array (row-major). 0 = empty. Use encode_tile/decode_tile.
    pub tiles: Vec<u32>,
    pub visible: bool,
    /// Depth offset added to the entity's z index for this layer.
    pub z_index: i32,
}

impl TileLayer {
    /// A visible layer of `tile_count` empty cells.
    pub fn new(name: &str, tile_count: usize) -> (l: Self)
        ensures
            l.name@ == name@,
            l.tiles@.len() == tile_count,
            forall|i: int| 0 <= i < tile_count ==> #[trigger] l.tiles@[i] == 0,
            l.visible,
            l.z_index == 0,
    {
        let mut tiles: Vec<u32> = Vec::new();
        let mut i: usize = 0;
        while i < tile_count
            invariant
                i <= tile_count,
                tiles@.len() == i,
                forall|j: int| 0 <= j < i ==> #[trigger] tiles@[j] == 0,
            decreases tile_count - i,
        {
            tiles.push(0);
            i = i + 1;
        }
        TileLayer { name: name.to_string(), tiles, visible: true, z_index: 0 }
    }
}

/// A rectangle of whole cells: `cols` x `rows` cells from (`col`, `row`).
#[derive(Clone, Copy, Debug, PartialEq, Eq, Structural)]
pub struct TileRect {
    pub col: usize,
    pub row: usize,
    pub cols: usize,
    pub rows: usize,
}

pub open spec fn in_rect(r: TileRect, c: int, row: int) -> bool {
    r.col <= c < r.col + r.cols && r.row <= row < r.row + r.rows
}

/// No cell lies in two of the rectangles.
pub open spec fn disjoint_rects(rs: Seq<TileRect>) -> bool {
    forall|i: int, j: int, c: int, r0: int| 0 <= i < rs.len() && 0 <= j < rs.len() && i != j
        ==> !(#[trigger] in_rect(rs[i], c, r0) && #[trigger] in_rect(rs[j], c, r0))
}

pub open spec fn covered(rects: Seq<TileRect>, c: int, row: int) -> bool {
    exists|i: int| 0 <= i < rects.len() && #[trigger] in_rect(rects[i], c, row)
}

/// Cell (c, row) is solid and not covered by any of `rects`.
pub open spec fn uncovered_solid(solid: Seq<bool>, cols: int, rects: Seq<TileRect>, c: int, row: int) -> bool {
    at(solid, cols, c, row) && !covered(rects, c, row)
}

/// Rectangle `i` of `rects` is the one the greedy merge takes next: it starts
/// at the first cell (row by row) that is solid and not covered by the
/// rectangles before it, runs right as far as such cells go, and extends
/// down as long as the whole span of the next row is such cells.
pub open spec fn greedy_rect(solid: Seq<bool>, cols: int, rows: int, rects: Seq<TileRect>, i: int) -> bool {
    let prev = rects.take(i);
    let t = rects[i];
    &&& uncovered_solid(solid, cols, prev, t.col as int, t.row as int)
    &&& forall|c: int, r0: int| 0 <= c < cols && 0 <= r0 < rows && (r0 < t.row || (r0 == t.row && c < t.col))
        ==> !#[trigger] uncovered_solid(solid, cols, prev, c, r0)
    &&& t.col + t.cols == cols || !uncovered_solid(solid, cols, prev, t.col + t.cols, t.row as int)
    &&& t.row + t.rows == rows || exists|c: int| t.col <= c < t.col + t.cols
        && !#[trigger] uncovered_solid(solid, cols, prev, c, t.row + t.rows)
}

/// The layered tile map of a tilemap component: its palettes, size and layers.
#[derive(Clone, Debug)]
pub struct Tilemap {
    /// palette_id 1 in a cell refers to palettes[0], palette_id 2 to palettes[1], etc.
    pub palettes: Vec<TilePalette>,
    /// Map width in tiles.
    pub map_cols: u32,
    /// Map height in tiles.
    pub map_rows: u32,
    /// Layers, bottom to top.
    pub layers: Vec<TileLayer>,
}

impl Default for Tilemap {
    /// A 20 x 10 map without palettes and with one empty, visible layer
    /// called "Ground".
    fn default() -> (m: Self)
        ensures
            m.map_cols == 20,
            m.map_rows == 10,
            m.palettes@.len() == 0,
            m.layers@.len() == 1,
            m.layers@[0].name@ == "Ground"@,
            m.layers@[0].tiles@.len() == 200,
            forall|i: int| 0 <= i < 200 ==> #[trigger] m.layers@[0].tiles@[i] == 0,
            m.layers@[0].visible,
            m.layers@[0].z_index == 0,
    {
        let map_cols: u32 = 20;
        let map_rows: u32 = 10;
        let tile_count = (map_cols * map_rows) as usize;
        let mut layers: Vec<TileLayer> = Vec::new();
        layers.push(TileLayer::new("Ground", tile_count));
        Tilemap { palettes: Vec::new(), map_cols, map_rows, layers }
    }
}

/// The number of cells of a layer that a resize from `old_cols` x
/// `old_rows` to `cols` x `rows` reads: up to the last cell of the region
/// the two sizes share.
pub open spec fn resize_reads(old_cols: int, old_rows: int, cols: int, rows: int) -> int {
    let r = if rows < old_rows { rows } else { old_rows };
    let c = if cols < old_cols { cols } else { old_cols };
    if r > 0 && c > 0 { (r - 1) * old_cols + c } else { 0 }
}

/// `new` is the layer `old` (`old_cols` wide) resized to `cols` x `rows`:
/// the cells of the shared region keep their tiles, the others are empty.
pub open spec fn resized_layer(old: Seq<u32>, old_cols: int, old_rows: int, new: Seq<u32>, cols: int, rows: int) -> bool {
    &&& new.len() == cols * rows
    &&& forall|r: int, c: int| 0 <= r < rows && 0 <= c < cols ==> #[trigger] new[cell_index(cols, c, r)]
        == (if r < old_rows && c < old_cols { old[cell_index(old_cols, c, r)] } else { 0 })
}

/// The width or height a resize asks for: the new value if given, else the
/// current one, and at least 1.
pub open spec fn resize_dim(new: Option<u32>, current: u32) -> u32 {
    let v = match new {
        Some(n) => n,
        None => current,
    };
    if v < 1 { 1 } else { v }
}

/// Copy the tiles of `old` (`old_cols` x `old_rows`) into a `cols` x `rows` layer.
fn resize_tiles(old: &Vec<u32>, old_cols: u32, old_rows: u32, cols: u32, rows: u32) -> (new: Vec<u32>)
    requires
        cols as int * rows as int <= u32::MAX,
        old@.len() >= resize_reads(old_cols as int, old_rows as int, cols as int, rows as int),
        resize_reads(old_cols as int, old_rows as int, cols as int, rows as int) <= u32::MAX + 1,
    ensures
        resized_layer(old@, old_cols as int, old_rows as int, new@, cols as int, rows as int),
{
    let n = (cols * rows) as usize;
    let mut new: Vec<u32> = Vec::new();
    let mut i: usize = 0;
    while i < n
        invariant
            i <= n,
            new@.len() == i,
            forall|j: int| 0 <= j < i ==> #[trigger] new@[j] == 0,
        decreases n - i,
    {
        new.push(0);
        i = i + 1;
    }
    proof {
        assert forall|r: int, c: int| 0 <= r < rows && 0 <= c < cols implies #[trigger] new@[cell_index(cols as int, c, r)] == 0 by {
            crate::pathfinding::lemma_cell_index(cols as int, rows as int, c, r);
        }
    }
    let min_rows = if rows < old_rows { rows } else { old_rows };
    let min_cols = if cols < old_cols { cols } else { old_cols };
    let mut row: u32 = 0;
    while row < min_rows
        invariant
            cols as int * rows as int <= u32::MAX,
            n == cols * rows,
            new@.len() == n,
            min_rows <= rows && min_rows <= old_rows,
            min_cols <= cols && min_cols <= old_cols,
            min_rows == (if rows < old_rows { rows } else { old_rows }),
            min_cols == (if cols < old_cols { cols } else { old_cols }),
            old@.len() >= resize_reads(old_cols as int, old_rows as int, cols as int, rows as int),
            resize_reads(old_cols as int, old_rows as int, cols as int, rows as int) <= u32::MAX + 1,
            row <= min_rows,
            forall|r: int, c: int| 0 <= r < rows && 0 <= c < cols ==> #[trigger] new@[cell_index(cols as int, c, r)]
                == (if r < row && c < min_cols { old@[cell_index(old_cols as int, c, r)] } else { 0 }),
        decreases min_rows - row,
    {
        let mut col: u32 = 0;
        while col < min_cols
            invariant
                cols as int * rows as int <= u32::MAX,
                n == cols * rows,
                new@.len() == n,
                min_rows <= rows && min_rows <= old_rows,
                min_cols <= cols && min_cols <= old_cols,
                min_rows == (if rows < old_rows { rows } else { old_rows }),
                min_cols == (if cols < old_cols { cols } else { old_cols }),
                old@.len() >= resize_reads(old_cols as int, old_rows as int, cols as int, rows as int),
                resize_reads(old_cols as int, old_rows as int, cols as int, rows as int) <= u32::MAX + 1,
                row < min_rows,
                col <= min_cols,
                forall|r: int, c: int| 0 <= r < rows && 0 <= c < cols ==> #[trigger] new@[cell_index(cols as int, c, r)]
                    == (if (r < row || (r == row && c < col)) && c < min_cols { old@[cell_index(old_cols as int, c, r)] } else { 0 }),
            decreases min_cols - col,
        {
            proof {
                crate::pathfinding::lemma_cell_index(cols as int, rows as int, col as int, row as int);
                assert((row as int) * (old_cols as int) + col as int <= (min_rows as int - 1) * old_cols as int + min_cols as int - 1) by (nonlinear_arith)
                    requires
                        row < min_rows,
                        col < min_cols,
                        0 <= old_cols,
                ;
            }
            let src = (row * old_cols + col) as usize;
            let dst = (row * cols + col) as usize;
            let v = old[src];
            let ghost before = new@;
            new.set(dst, v);
            proof {
                assert forall|r: int, c: int| 0 <= r < rows && 0 <= c < cols implies #[trigger] new@[cell_index(cols as int, c, r)]
                    == (if (r < row || (r == row && c < col + 1)) && c < min_cols { old@[cell_index(old_cols as int, c, r)] } else { 0 }) by {
                    crate::pathfinding::lemma_cell_index(cols as int, rows as int, c, r);
                    if r != row || c != col {
                        if cell_index(cols as int, c, r) == cell_index(cols as int, col as int, row as int) {
                            crate::pathfinding::lemma_cell_index_injective(cols as int, c, r, col as int, row as int);
                        }
                        assert(new@[cell_index(cols as int, c, r)] == before[cell_index(cols as int, c, r)]);
                    }
                }
            }
            col = col + 1;
        }
        row = row + 1;
    }
    new
}

impl Tilemap {
    /// Resize the map to `new_cols` x `new_rows` (each defaulting to the
    /// current size, and at least 1), keeping the tiles of the region the two
    /// sizes share in every layer and leaving the rest empty. Nothing
    /// happens when neither size is given.
    pub fn resize_map(&mut self, new_cols: Option<u32>, new_rows: Option<u32>)
        requires
            (new_cols is Some || new_rows is Some) ==> {
                &&& resize_dim(new_cols, old(self).map_cols) as int * resize_dim(new_rows, old(self).map_rows) as int <= u32::MAX
                &&& resize_reads(old(self).map_cols as int, old(self).map_rows as int,
                    resize_dim(new_cols, old(self).map_cols) as int, resize_dim(new_rows, old(self).map_rows) as int) <= u32::MAX + 1
                &&& forall|l: int| 0 <= l < old(self).layers@.len() ==> #[trigger] old(self).layers@[l].tiles@.len()
                    >= resize_reads(old(self).map_cols as int, old(self).map_rows as int,
                    resize_dim(new_cols, old(self).map_cols) as int, resize_dim(new_rows, old(self).map_rows) as int)
            },
        ensures
            !(new_cols is Some || new_rows is Some) ==> *final(self) == *old(self),
            (new_cols is Some || new_rows is Some) ==> {
                &&& final(self).map_cols == resize_dim(new_cols, old(self).map_cols)
                &&& final(self).map_rows == resize_dim(new_rows, old(self).map_rows)
                &&& final(self).palettes == old(self).palettes
                &&& final(self).layers@.len() == old(self).layers@.len()
                &&& forall|l: int| 0 <= l < old(self).layers@.len() ==> {
                    &&& (#[trigger] final(self).layers@[l]).name == old(self).layers@[l].name
                    &&& final(self).layers@[l].visible == old(self).layers@[l].visible
                    &&& final(self).layers@[l].z_index == old(self).layers@[l].z_index
                    &&& resized_layer(old(self).layers@[l].tiles@, old(self).map_cols as int, old(self).map_rows as int,
                        final(self).layers@[l].tiles@, final(self).map_cols as int, final(self).map_rows as int)
                }
            },
    {
        if new_cols.is_none() && new_rows.is_none() {
            return;
        }
        let c0 = match new_cols {
            Some(c) => c,
            None => self.map_cols,
        };
        let r0 = match new_rows {
            Some(r) => r,
            None => self.map_rows,
        };
        let cols = if c0 < 1 { 1 } else { c0 };
        let rows = if r0 < 1 { 1 } else { r0 };
        let mut layers: Vec<TileLayer> = Vec::new();
        let mut i: usize = 0;
        while i < self.layers.len()
            invariant
                self == old(self),
                cols == resize_dim(new_cols, self.map_cols),
                rows == resize_dim(new_rows, self.map_rows),
                cols as int * rows as int <= u32::MAX,
                resize_reads(self.map_cols as int, self.map_rows as int, cols as int, rows as int) <= u32::MAX + 1,
                forall|l: int| 0 <= l < self.layers@.len() ==> #[trigger] self.layers@[l].tiles@.len()
                    >= resize_reads(self.map_cols as int, self.map_rows as int, cols as int, rows as int),
                i <= self.layers@.len(),
                layers@.len() == i,
                forall|l: int| 0 <= l < i ==> {
                    &&& (#[trigger] layers@[l]).name == self.layers@[l].name
                    &&& layers@[l].visible == self.layers@[l].visible
                    &&& layers@[l].z_index == self.layers@[l].z_index
                    &&& resized_layer(self.layers@[l].tiles@, self.map_cols as int, self.map_rows as int,
                        layers@[l].tiles@, cols as int, rows as int)
                },
            decreases self.layers@.len() - i,
        {
            let layer = &self.layers[i];
            let tiles = resize_tiles(&layer.tiles, self.map_cols, self.map_rows, cols, rows);
            layers.push(TileLayer { name: layer.name.clone(), tiles, visible: layer.visible, z_index: layer.z_index });
            i = i + 1;
        }
        self.layers = layers;
        self.map_cols = cols;
        self.map_rows = rows;
    }
}

/// Cell value `v` names a solid tile of one of `palettes`.
pub open spec fn solid_code(palettes: Seq<TilePalette>, v: u32) -> bool {
    &&& v != 0
    &&& v / 0x10000 != 0
    &&& v / 0x10000 - 1 < palettes.len()
    &&& palettes[v / 0x10000 - 1].solid_tiles@.contains((v % 0x10000) as u16)
}

impl Tilemap {
    /// The cell value at position `idx` of a layer (0 past its end).
    pub open spec fn cell(layer: TileLayer, idx: int) -> u32 {
        if 0 <= idx < layer.tiles@.len() { layer.tiles@[idx] } else { 0 }
    }

    /// Whether each tile is solid, row by row.
    pub open spec fn solid_cells(&self) -> Seq<bool> {
        Seq::new((self.map_cols * self.map_rows) as nat, |i: int| self.solid_at(i))
    }

    /// The tile at position `idx` is solid in some layer.
    pub open spec fn solid_at(&self, idx: int) -> bool {
        exists|l: int| 0 <= l < self.layers@.len() && solid_code(self.palettes@, #[trigger] Self::cell(self.layers@[l], idx))
    }

    /// Returns true if the tile at (col, row) is solid in any layer.
    pub fn is_tile_solid(&self, col: u32, row: u32) -> (b: bool)
        requires
            row * self.map_cols + col <= u32::MAX,
        ensures
            b == self.solid_at(row * self.map_cols + col),
    {
        let idx = (row * self.map_cols + col) as usize;
        let mut l: usize = 0;
        while l < self.layers.len()
            invariant
                idx == row * self.map_cols + col,
                l <= self.layers@.len(),
                forall|k: int| 0 <= k < l ==> !solid_code(self.palettes@, #[trigger] Self::cell(self.layers@[k], idx as int)),
            decreases self.layers@.len() - l,
        {
            let layer = &self.layers[l];
            let v = if idx < layer.tiles.len() { layer.tiles[idx] } else { 0 };
            if v != 0 {
                let (palette_id, tile_idx) = decode_tile(v);
                if palette_id != 0 {
                    let pi = (palette_id - 1) as usize;
                    if pi < self.palettes.len() {
                        if self.palettes[pi].is_solid(tile_idx as u16) {
                            assert(solid_code(self.palettes@, Self::cell(self.layers@[l as int], idx as int)));
                            return true;
                        }
                    }
                }
            }
            assert(!solid_code(self.palettes@, Self::cell(self.layers@[l as int], idx as int)));
            l = l + 1;
        }
        false
    }

    /// Where the tile of cell value `v` is drawn from: the index of its
    /// palette and its (column, row) in that palette's tileset, laid out in
    /// at least one column; `None` for an empty cell, palette 0 or a palette
    /// the map does not have.
    pub open spec fn tile_source_of(&self, v: u32) -> Option<(usize, u32, u32)> {
        let p = v / 0x10000;
        let t = v % 0x10000;
        if v == 0 || p == 0 || p - 1 >= self.palettes@.len() {
            None
        } else {
            let tc = self.palettes@[p - 1].tileset_cols;
            let cols = if tc == 0 { 1 } else { tc };
            Some(((p - 1) as usize, (t % cols) as u32, (t / cols) as u32))
        }
    }

    /// Where the tile at (col, row) of layer `layer` is drawn from (see
    /// `tile_source_of`); a cell past the end of the layer's tiles is empty.
    pub fn tile_source(&self, layer: usize, col: u32, row: u32) -> (r: Option<(usize, u32, u32)>)
        requires
            layer < self.layers@.len(),
            row * self.map_cols + col <= u32::MAX,
        ensures
            r == self.tile_source_of(Self::cell(self.layers@[layer as int], row * self.map_cols + col)),
    {
        let idx = (row * self.map_cols + col) as usize;
        let tiles = &self.layers[layer].tiles;
        let v = if idx < tiles.len() { tiles[idx] } else { 0 };
        if v == 0 {
            return None;
        }
        let (palette_id, tile_idx) = decode_tile(v);
        if palette_id == 0 {
            return None;
        }
        let pi = (palette_id - 1) as usize;
        if pi >= self.palettes.len() {
            return None;
        }
        let tc = self.palettes[pi].tileset_cols;
        let cols = if tc == 0 { 1 } else { tc };
        Some((pi, tile_idx % cols, tile_idx / cols))
    }

    /// Greedy rectangle merge over solid tiles: runs of solid cells along a
    /// row, extended downward while the whole run stays solid. The rectangles
    /// do not overlap and cover exactly the solid tiles.
    pub fn solid_rects(&self) -> (r: Vec<TileRect>)
        requires
            self.map_cols as int * self.map_rows as int <= u32::MAX,
        ensures
            disjoint_rects(r@),
            forall|c: int, row: int| 0 <= c < self.map_cols && 0 <= row < self.map_rows ==>
                (covered(r@, c, row) <==> self.solid_at(row * self.map_cols + c)),
            forall|i: int| 0 <= i < r@.len() ==> (#[trigger] r@[i]).cols > 0 && r@[i].rows > 0
                && r@[i].col + r@[i].cols <= self.map_cols && r@[i].row + r@[i].rows <= self.map_rows,
            forall|i: int| 0 <= i < r@.len() ==> #[trigger] greedy_rect(self.solid_cells(), self.map_cols as int, self.map_rows as int, r@, i),
    {
        let cols = self.map_cols as usize;
        let rows = self.map_rows as usize;
        let mut solid: Vec<bool> = Vec::new();
        let mut row: usize = 0;
        while row < rows
            invariant
                cols == self.map_cols,
                rows == self.map_rows,
                cols * rows <= u32::MAX,
                row <= rows,
                solid@.len() == row * cols,
                forall|i: int| 0 <= i < solid@.len() ==> #[trigger] solid@[i] == self.solid_at(i),
            decreases rows - row,
        {
            let mut c: usize = 0;
            while c < cols
                invariant
                    cols == self.map_cols,
                    rows == self.map_rows,
                    cols * rows <= u32::MAX,
                    row < rows,
                    c <= cols,
                    solid@.len() == row * cols + c,
                    forall|i: int| 0 <= i < solid@.len() ==> #[trigger] solid@[i] == self.solid_at(i),
                decreases cols - c,
            {
                proof {
                    crate::pathfinding::lemma_cell_index(cols as int, rows as int, c as int, row as int);
                }
                let b = self.is_tile_solid(c as u32, row as u32);
                solid.push(b);
                c = c + 1;
            }
            proof {
                assert((row + 1) * cols == row * cols + cols) by (nonlinear_arith);
            }
            row = row + 1;
        }
        proof {
            assert(rows * cols == cols * rows) by (nonlinear_arith);
        }
        let r = merge_solid(&solid, cols, rows);
        proof {
            assert(solid@ =~= self.solid_cells());
            assert forall|c: int, row: int| 0 <= c < self.map_cols && 0 <= row < self.map_rows implies
                (covered(r@, c, row) <==> self.solid_at(row * self.map_cols + c)) by {
                crate::pathfinding::lemma_cell_index(cols as int, rows as int, c, row);
                assert(at(solid@, cols as int, c, row) == solid@[row * cols + c]);
            }
        }
        r
    }
}

/// Cell (c, row) of a `cols`-wide row-major array.
pub open spec fn at(s: Seq<bool>, cols: int, c: int, row: int) -> bool {
    s[row * cols + c]
}

/// Cell (c, r) is `true` in `solid` and not yet consumed.
fn free_cell(solid: &Vec<bool>, consumed: &Vec<bool>, cols: usize, rows: usize, c: usize, r: usize) -> (b: bool)
    requires
        solid@.len() == cols * rows,
        consumed@.len() == cols * rows,
        c < cols,
        r < rows,
    ensures
        b == (at(solid@, cols as int, c as int, r as int) && !at(consumed@, cols as int, c as int, r as int)),
{
    proof {
        crate::pathfinding::lemma_cell_index(cols as int, rows as int, c as int, r as int);
    }
    let n = solid.len();
    assert(r * cols <= r * cols + c < n);
    let i = r * cols + c;
    solid[i] && !consumed[i]
}

/// Cell (c, r) is `true` in `solid` and not consumed.
pub open spec fn fresh(solid: Seq<bool>, consumed: Seq<bool>, cols: int, c: int, r: int) -> bool {
    at(solid, cols, c, r) && !at(consumed, cols, c, r)
}

/// The end of the run of fresh cells of `row` that begins at `start`.
fn find_run(solid: &Vec<bool>, consumed: &Vec<bool>, cols: usize, rows: usize, row: usize, start: usize) -> (end: usize)
    requires
        solid@.len() == cols * rows,
        consumed@.len() == cols * rows,
        start < cols,
        row < rows,
        fresh(solid@, consumed@, cols as int, start as int, row as int),
    ensures
        start < end <= cols,
        forall|c: int| start <= c < end ==> #[trigger] fresh(solid@, consumed@, cols as int, c, row as int),
        end == cols || !fresh(solid@, consumed@, cols as int, end as int, row as int),
{
    let mut col = start + 1;
    while col < cols && free_cell(solid, consumed, cols, rows, col, row)
        invariant
            solid@.len() == cols * rows,
            consumed@.len() == cols * rows,
            row < rows,
            start < col <= cols,
            forall|c: int| start <= c < col ==> #[trigger] fresh(solid@, consumed@, cols as int, c, row as int),
        decreases cols - col,
    {
        assert(fresh(solid@, consumed@, cols as int, col as int, row as int));
        col = col + 1;
    }
    col
}

/// How many rows, from `row` down, hold only fresh cells in columns `start..end`.
fn extend_down(
    solid: &Vec<bool>,
    consumed: &Vec<bool>,
    cols: usize,
    rows: usize,
    row: usize,
    start: usize,
    end: usize,
) -> (h: usize)
    requires
        solid@.len() == cols * rows,
        consumed@.len() == cols * rows,
        start < end <= cols,
        row < rows,
        forall|c: int| start <= c < end ==> #[trigger] fresh(solid@, consumed@, cols as int, c, row as int),
    ensures
        1 <= h,
        row + h <= rows,
        forall|c: int, r0: int| start <= c < end && row <= r0 < row + h ==> #[trigger] fresh(solid@, consumed@, cols as int, c, r0),
        row + h < rows ==> exists|c: int| start <= c < end && !#[trigger] fresh(solid@, consumed@, cols as int, c, row + h),
{
    let mut run_height: usize = 1;
    loop
        invariant
            solid@.len() == cols * rows,
            consumed@.len() == cols * rows,
            start < end <= cols,
            row < rows,
            1 <= run_height,
            row + run_height <= rows,
            forall|c: int, r0: int| start <= c < end && row <= r0 < row + run_height ==> #[trigger] fresh(solid@, consumed@, cols as int, c, r0),
        decreases rows - row - run_height,
    {
        let next_row = row + run_height;
        if next_row >= rows {
            return run_height;
        }
        let mut c: usize = start;
        while c < end && free_cell(solid, consumed, cols, rows, c, next_row)
            invariant
                solid@.len() == cols * rows,
                consumed@.len() == cols * rows,
                next_row < rows,
                start <= c <= end <= cols,
                forall|c2: int| start <= c2 < c ==> #[trigger] fresh(solid@, consumed@, cols as int, c2, next_row as int),
            decreases end - c,
        {
            assert(fresh(solid@, consumed@, cols as int, c as int, next_row as int));
            c = c + 1;
        }
        if c < end {
            assert(!fresh(solid@, consumed@, cols as int, c as int, next_row as int));
            return run_height;
        }
        assert forall|c2: int, r0: int| start <= c2 < end && row <= r0 < row + run_height + 1
            implies #[trigger] fresh(solid@, consumed@, cols as int, c2, r0) by {
            if r0 == next_row {
                assert(fresh(solid@, consumed@, cols as int, c2, next_row as int));
            }
        }
        run_height = run_height + 1;
    }
}

/// Greedy merge of the `true` cells of a `cols` x `rows` array into rectangles.
fn merge_solid(solid: &Vec<bool>, cols: usize, rows: usize) -> (r: Vec<TileRect>)
    requires
        solid@.len() == cols * rows,
        cols * rows <= u32::MAX,
    ensures
        disjoint_rects(r@),
        forall|c: int, row: int| 0 <= c < cols && 0 <= row < rows ==>
            (covered(r@, c, row) <==> at(solid@, cols as int, c, row)),
        forall|i: int| 0 <= i < r@.len() ==> (#[trigger] r@[i]).cols > 0 && r@[i].rows > 0
            && r@[i].col + r@[i].cols <= cols && r@[i].row + r@[i].rows <= rows,
        forall|i: int| 0 <= i < r@.len() ==> #[trigger] greedy_rect(solid@, cols as int, rows as int, r@, i),
{
    let n = cols * rows;
    let mut consumed: Vec<bool> = Vec::new();
    let mut k: usize = 0;
    while k < n
        invariant
            k <= n,
            consumed@.len() == k,
            forall|j: int| 0 <= j < k ==> !consumed@[j],
        decreases n - k,
    {
        consumed.push(false);
        k = k + 1;
    }
    let mut rects: Vec<TileRect> = Vec::new();
    proof {
        assert forall|c: int, r0: int| 0 <= c < cols && 0 <= r0 < rows implies
            (#[trigger] at(consumed@, cols as int, c, r0) <==> covered(rects@, c, r0)) by {
            crate::pathfinding::lemma_cell_index(cols as int, rows as int, c, r0);
        }
    }
    let mut row: usize = 0;
    while row < rows
        invariant
            merge_inv(solid@, consumed@, rects@, cols as int, rows as int),
            n == cols * rows,
            cols * rows <= u32::MAX,
            row <= rows,
            forall|c: int, r0: int| 0 <= c < cols && 0 <= r0 < row && #[trigger] at(solid@, cols as int, c, r0)
                ==> at(consumed@, cols as int, c, r0),
            forall|i: int| 0 <= i < rects@.len() ==> #[trigger] greedy_rect(solid@, cols as int, rows as int, rects@, i),
        decreases rows - row,
    {
        let mut col: usize = 0;
        while col < cols
            invariant
                merge_inv(solid@, consumed@, rects@, cols as int, rows as int),
                n == cols * rows,
                cols * rows <= u32::MAX,
                row < rows,
                col <= cols,
                forall|c: int, r0: int| 0 <= c < cols && 0 <= r0 < row && #[trigger] at(solid@, cols as int, c, r0)
                    ==> at(consumed@, cols as int, c, r0),
                forall|c: int| 0 <= c < col && #[trigger] at(solid@, cols as int, c, row as int)
                    ==> at(consumed@, cols as int, c, row as int),
                forall|i: int| 0 <= i < rects@.len() ==> #[trigger] greedy_rect(solid@, cols as int, rows as int, rects@, i),
            decreases cols - col,
        {
            proof {
                crate::pathfinding::lemma_cell_index(cols as int, rows as int, col as int, row as int);
            }
            let idx = row * cols + col;
            if solid[idx] && !consumed[idx] {
                let run_start = col;
                let run_end = find_run(solid, &consumed, cols, rows, row, run_start);
                let run_height = extend_down(solid, &consumed, cols, rows, row, run_start, run_end);
                col = run_end;
                let rect = TileRect { col: run_start, row, cols: run_end - run_start, rows: run_height };
                let ghost c_old = consumed@;
                mark_consumed(&mut consumed, cols, rows, rect);
                let ghost old_rects = rects@;
                proof {
                    lemma_greedy_next(solid@, c_old, old_rects, cols as int, rows as int, rect);
                }
                rects.push(rect);
                proof {
                    lemma_push_rect(solid@, c_old, consumed@, old_rects, rect, cols as int, rows as int);
                    lemma_greedy_push(solid@, cols as int, rows as int, old_rects, rect);
                }
            } else {
                col = col + 1;
            }
        }
        row = row + 1;
    }
    proof {
        let rs = rects@;
        assert forall|c: int, r0: int| 0 <= c < cols && 0 <= r0 < rows implies
            (covered(rs, c, r0) <==> at(solid@, cols as int, c, r0)) by {
            if at(solid@, cols as int, c, r0) {
                assert(at(consumed@, cols as int, c, r0));
            }
        }
    }
    rects
}

/// Inside the array, a fresh cell is one that is solid and not covered.
proof fn lemma_fresh_uncovered(solid: Seq<bool>, consumed: Seq<bool>, rects: Seq<TileRect>, cols: int, rows: int, c: int, r0: int)
    requires
        merge_inv(solid, consumed, rects, cols, rows),
        0 <= c < cols,
        0 <= r0 < rows,
    ensures
        fresh(solid, consumed, cols, c, r0) == uncovered_solid(solid, cols, rects, c, r0),
{
    assert(at(consumed, cols, c, r0) <==> covered(rects, c, r0));
}

/// The rectangle found at the first fresh cell is the greedy one.
proof fn lemma_greedy_next(solid: Seq<bool>, consumed: Seq<bool>, rects: Seq<TileRect>, cols: int, rows: int, t: TileRect)
    requires
        merge_inv(solid, consumed, rects, cols, rows),
        0 <= t.col < cols,
        0 <= t.row < rows,
        t.cols > 0,
        t.rows > 0,
        t.col + t.cols <= cols,
        t.row + t.rows <= rows,
        fresh(solid, consumed, cols, t.col as int, t.row as int),
        forall|c: int, r0: int| 0 <= c < cols && 0 <= r0 < t.row && #[trigger] at(solid, cols, c, r0)
            ==> at(consumed, cols, c, r0),
        forall|c: int| 0 <= c < t.col && #[trigger] at(solid, cols, c, t.row as int)
            ==> at(consumed, cols, c, t.row as int),
        t.col + t.cols == cols || !fresh(solid, consumed, cols, t.col + t.cols, t.row as int),
        t.row + t.rows == rows || exists|c: int| t.col <= c < t.col + t.cols
            && !#[trigger] fresh(solid, consumed, cols, c, t.row + t.rows),
    ensures
        greedy_rect(solid, cols, rows, rects.push(t), rects.len() as int),
{
    let all = rects.push(t);
    assert(all.take(rects.len() as int) =~= rects);
    assert(all[rects.len() as int] == t);
    lemma_fresh_uncovered(solid, consumed, rects, cols, rows, t.col as int, t.row as int);
    assert forall|c: int, r0: int| 0 <= c < cols && 0 <= r0 < rows && (r0 < t.row || (r0 == t.row && c < t.col))
        implies !#[trigger] uncovered_solid(solid, cols, rects, c, r0) by {
        lemma_fresh_uncovered(solid, consumed, rects, cols, rows, c, r0);
        if r0 < t.row {
            if at(solid, cols, c, r0) {
                assert(at(consumed, cols, c, r0));
            }
        } else {
            if at(solid, cols, c, r0) {
                assert(at(consumed, cols, c, t.row as int));
            }
        }
    }
    if t.col + t.cols != cols {
        lemma_fresh_uncovered(solid, consumed, rects, cols, rows, t.col + t.cols, t.row as int);
    }
    if t.row + t.rows != rows {
        let c = choose|c: int| t.col <= c < t.col + t.cols && !#[trigger] fresh(solid, consumed, cols, c, t.row + t.rows);
        lemma_fresh_uncovered(solid, consumed, rects, cols, rows, c, t.row + t.rows);
        assert(!uncovered_solid(solid, cols, rects, c, t.row + t.rows));
    }
}

/// Appending a rectangle keeps the earlier ones greedy.
proof fn lemma_greedy_push(solid: Seq<bool>, cols: int, rows: int, rects: Seq<TileRect>, t: TileRect)
    requires
        greedy_rect(solid, cols, rows, rects.push(t), rects.len() as int),
        forall|i: int| 0 <= i < rects.len() ==> #[trigger] greedy_rect(solid, cols, rows, rects, i),
    ensures
        forall|i: int| 0 <= i < rects.len() + 1 ==> #[trigger] greedy_rect(solid, cols, rows, rects.push(t), i),
{
    let all = rects.push(t);
    assert forall|i: int| 0 <= i < rects.len() + 1 implies #[trigger] greedy_rect(solid, cols, rows, all, i) by {
        if i < rects.len() {
            assert(all.take(i) =~= rects.take(i));
            assert(all[i] == rects[i]);
            assert(greedy_rect(solid, cols, rows, rects, i));
        }
    }
}

/// `consumed` marks exactly the cells of `rects`, which lie inside the
/// array, cover only `true` cells of `solid`, and do not overlap.
pub open spec fn merge_inv(solid: Seq<bool>, consumed: Seq<bool>, rects: Seq<TileRect>, cols: int, rows: int) -> bool {
    &&& solid.len() == cols * rows
    &&& consumed.len() == cols * rows
    &&& forall|c: int, r0: int| 0 <= c < cols && 0 <= r0 < rows ==>
        (#[trigger] at(consumed, cols, c, r0) <==> covered(rects, c, r0))
    &&& forall|i: int| 0 <= i < rects.len() ==> (#[trigger] rects[i]).cols > 0 && rects[i].rows > 0
        && rects[i].col + rects[i].cols <= cols && rects[i].row + rects[i].rows <= rows
    &&& forall|i: int, c: int, r0: int| 0 <= i < rects.len() && #[trigger] in_rect(rects[i], c, r0) ==> at(solid, cols, c, r0)
    &&& disjoint_rects(rects)
}

/// Mark every cell of `rect` as consumed.
fn mark_consumed(
    consumed: &mut Vec<bool>,
    cols: usize,
    rows: usize,
    rect: TileRect,
)
    requires
        old(consumed)@.len() == cols * rows,
        cols * rows <= u32::MAX,
        rect.cols > 0 && rect.rows > 0,
        rect.col + rect.cols <= cols,
        rect.row + rect.rows <= rows,
    ensures
        final(consumed)@.len() == cols * rows,
        forall|c: int, r0: int| 0 <= c < cols && 0 <= r0 < rows ==>
            #[trigger] at(final(consumed)@, cols as int, c, r0) == (at(old(consumed)@, cols as int, c, r0) || in_rect(rect, c, r0)),
{
    let mut r: usize = rect.row;
    while r < rect.row + rect.rows
        invariant
            consumed@.len() == cols * rows,
            cols * rows <= u32::MAX,
            rect.col + rect.cols <= cols,
            rect.row + rect.rows <= rows,
            rect.row <= r <= rect.row + rect.rows,
            forall|c: int, r0: int| 0 <= c < cols && 0 <= r0 < rows ==>
                #[trigger] at(consumed@, cols as int, c, r0) == (at(old(consumed)@, cols as int, c, r0)
                    || (rect.col <= c < rect.col + rect.cols && rect.row <= r0 < r)),
        decreases rect.row + rect.rows - r,
    {
        let mut c: usize = rect.col;
        while c < rect.col + rect.cols
            invariant
                consumed@.len() == cols * rows,
                cols * rows <= u32::MAX,
                rect.col + rect.cols <= cols,
                rect.row + rect.rows <= rows,
                rect.row <= r < rect.row + rect.rows,
                rect.col <= c <= rect.col + rect.cols,
                forall|c2: int, r0: int| 0 <= c2 < cols && 0 <= r0 < rows ==>
                    #[trigger] at(consumed@, cols as int, c2, r0) == (at(old(consumed)@, cols as int, c2, r0)
                        || (rect.col <= c2 < rect.col + rect.cols && rect.row <= r0 < r)
                        || (rect.col <= c2 < c && r0 == r)),
            decreases rect.col + rect.cols - c,
        {
            proof {
                crate::pathfinding::lemma_cell_index(cols as int, rows as int, c as int, r as int);
            }
            let i = r * cols + c;
            let ghost before = consumed@;
            consumed.set(i, true);
            proof {
                assert forall|c2: int, r0: int| 0 <= c2 < cols && 0 <= r0 < rows implies
                    #[trigger] at(consumed@, cols as int, c2, r0) == (at(old(consumed)@, cols as int, c2, r0)
                        || (rect.col <= c2 < rect.col + rect.cols && rect.row <= r0 < r)
                        || (rect.col <= c2 < c + 1 && r0 == r)) by {
                    crate::pathfinding::lemma_cell_index(cols as int, rows as int, c2, r0);
                    if r0 * cols + c2 == i {
                        crate::pathfinding::lemma_cell_index_injective(cols as int, c2, r0, c as int, r as int);
                    }
                    assert(at(before, cols as int, c2, r0) == (at(old(consumed)@, cols as int, c2, r0)
                        || (rect.col <= c2 < rect.col + rect.cols && rect.row <= r0 < r)
                        || (rect.col <= c2 < c && r0 == r)));
                }
            }
            c = c + 1;
        }
        r = r + 1;
    }
}

/// Adding a rectangle of fresh `true` cells, after marking them, keeps the merge invariant.
proof fn lemma_push_rect(
    solid: Seq<bool>,
    c_old: Seq<bool>,
    c_new: Seq<bool>,
    rects: Seq<TileRect>,
    rect: TileRect,
    cols: int,
    rows: int,
)
    requires
        merge_inv(solid, c_old, rects, cols, rows),
        c_new.len() == cols * rows,
        rect.cols > 0 && rect.rows > 0,
        rect.col + rect.cols <= cols,
        rect.row + rect.rows <= rows,
        forall|c: int, r0: int| in_rect(rect, c, r0) ==> #[trigger] fresh(solid, c_old, cols, c, r0),
        forall|c: int, r0: int| 0 <= c < cols && 0 <= r0 < rows ==>
            #[trigger] at(c_new, cols, c, r0) == (at(c_old, cols, c, r0) || in_rect(rect, c, r0)),
    ensures
        merge_inv(solid, c_new, rects.push(rect), cols, rows),
{
    let rs = rects.push(rect);
    let k = rects.len() as int;
    assert(rs[k] == rect);
    assert forall|c: int, r0: int| 0 <= c < cols && 0 <= r0 < rows implies
        (#[trigger] at(c_new, cols, c, r0) <==> covered(rs, c, r0)) by {
        if covered(rects, c, r0) {
            let i = choose|i: int| 0 <= i < rects.len() && #[trigger] in_rect(rects[i], c, r0);
            assert(rs[i] == rects[i]);
        }
        if in_rect(rect, c, r0) {
            assert(in_rect(rs[k], c, r0));
        }
        if covered(rs, c, r0) {
            let i = choose|i: int| 0 <= i < rs.len() && #[trigger] in_rect(rs[i], c, r0);
            if i < k {
                assert(rs[i] == rects[i]);
                assert(covered(rects, c, r0));
            }
        }
    }
    assert forall|i: int, c: int, r0: int| 0 <= i < rs.len() && #[trigger] in_rect(rs[i], c, r0) implies at(solid, cols, c, r0) by {
        if i < k {
            assert(rs[i] == rects[i]);
        } else {
            assert(in_rect(rect, c, r0));
            assert(fresh(solid, c_old, cols, c, r0));
        }
    }
    assert forall|i: int, j: int, c: int, r0: int| 0 <= i < rs.len() && 0 <= j < rs.len() && i != j
        implies !(#[trigger] in_rect(rs[i], c, r0) && #[trigger] in_rect(rs[j], c, r0)) by {
        if in_rect(rs[i], c, r0) && in_rect(rs[j], c, r0) {
            if i < k && j < k {
                assert(rs[i] == rects[i] && rs[j] == rects[j]);
            } else if i == k {
                assert(rs[j] == rects[j]);
                assert(covered(rects, c, r0));
                assert(0 <= c < cols && 0 <= r0 < rows);
                assert(at(c_old, cols, c, r0));
                assert(fresh(solid, c_old, cols, c, r0));
            } else {
                assert(rs[i] == rects[i]);
                assert(covered(rects, c, r0));
                assert(0 <= c < cols && 0 <= r0 < rows);
                assert(at(c_old, cols, c, r0));
                assert(fresh(solid, c_old, cols, c, r0));
            }
        }
    }
    assert forall|i: int| 0 <= i < rs.len() implies (#[trigger] rs[i]).cols > 0 && rs[i].rows > 0
        && rs[i].col + rs[i].cols <= cols && rs[i].row + rs[i].rows <= rows by {
        if i < k {
            assert(rs[i] == rects[i]);
        }
    }
}

/// A tile placed in any layer of a map, not only the first, makes its cell
/// solid when its palette lists it as solid.
pub proof fn law_solid_in_any_layer(t: Tilemap, l: int, idx: int, palette_id: u32, tile_idx: u32)
    requires
        0 <= l < t.layers@.len(),
        0 <= idx < t.layers@[l].tiles@.len(),
        t.layers@[l].tiles@[idx] == tile_code(palette_id, tile_idx),
        1 <= palette_id <= t.palettes@.len(),
        palette_id < 0x10000,
        tile_idx < 0x10000,
        t.palettes@[palette_id - 1].solid_tiles@.contains(tile_idx as u16),
    ensures
        t.solid_at(idx),
{
    law_decode_encode(palette_id, tile_idx);
    assert(tile_code(palette_id, tile_idx) != 0);
    assert(solid_code(t.palettes@, Tilemap::cell(t.layers@[l], idx)));
}

/// A cell that is empty in every layer is not solid, and a map's solid cells
/// do not depend on the order of its layers.
pub proof fn law_solid_layers(t1: Tilemap, t2: Tilemap, idx: int)
    requires
        t2.palettes@ == t1.palettes@,
        t2.layers@ == t1.layers@.reverse(),
    ensures
        t1.solid_at(idx) == t2.solid_at(idx),
        (forall|l: int| 0 <= l < t1.layers@.len() ==> #[trigger] Tilemap::cell(t1.layers@[l], idx) == 0) ==> !t1.solid_at(idx),
{
    let n = t1.layers@.len() as int;
    if t1.solid_at(idx) {
        let l = choose|l: int| 0 <= l < n && solid_code(t1.palettes@, #[trigger] Tilemap::cell(t1.layers@[l], idx));
        assert(t2.layers@[n - 1 - l] == t1.layers@[l]);
        assert(solid_code(t2.palettes@, Tilemap::cell(t2.layers@[n - 1 - l], idx)));
    }
    if t2.solid_at(idx) {
        let l = choose|l: int| 0 <= l < n && solid_code(t2.palettes@, #[trigger] Tilemap::cell(t2.layers@[l], idx));
        assert(t2.layers@[l] == t1.layers@[n - 1 - l]);
        assert(solid_code(t1.palettes@, Tilemap::cell(t1.layers@[n - 1 - l], idx)));
    }
}

/// A cell whose every layer holds nothing, or a tile its palette does not
/// list as solid, is not solid.
pub proof fn law_solid_needs_solid_tile(t: Tilemap, idx: int, ps: Seq<u32>, ts: Seq<u32>)
    requires
        ps.len() == t.layers@.len(),
        ts.len() == t.layers@.len(),
        forall|l: int| 0 <= l < t.layers@.len() ==> {
            &&& #[trigger] Tilemap::cell(t.layers@[l], idx) == tile_code(ps[l], ts[l])
            &&& ps[l] < 0x10000
            &&& ts[l] < 0x10000
            &&& ps[l] != 0 ==> !(ps[l] <= t.palettes@.len() && t.palettes@[ps[l] - 1].solid_tiles@.contains(ts[l] as u16))
        },
    ensures
        !t.solid_at(idx),
{
    if t.solid_at(idx) {
        let l = choose|l: int| 0 <= l < t.layers@.len() && solid_code(t.palettes@, #[trigger] Tilemap::cell(t.layers@[l], idx));
        law_decode_encode(ps[l], ts[l]);
        assert(Tilemap::cell(t.layers@[l], idx) == tile_code(ps[l], ts[l]));
    }
}

} // verus!
