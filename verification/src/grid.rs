//! Tile positions, map sizes and the grid of tiles the game is played on.

use vstd::prelude::*;
use crate::color::TileColor;

verus! {

/// The position of a tile: column `x` and row `y`.
#[derive(Clone, Copy, PartialEq, Eq, Structural, Debug, Hash)]
pub struct TilePos {
    pub x: u32,
    pub y: u32,
}

/// The number of columns (`x`) and rows (`y`) of a map.
#[derive(Clone, Copy, PartialEq, Eq, Structural, Debug, Hash)]
pub struct TilemapSize {
    pub x: u32,
    pub y: u32,
}

/// The terrain of a tile: only colourable tiles can be claimed by a player.
#[derive(Clone, Copy, PartialEq, Eq, Structural, Debug, Hash)]
pub enum TileType {
    Colorable,
    NonColorable,
}

/// A player's hold on a tile: who holds it and how strongly.
#[derive(Clone, Copy, PartialEq, Eq, Structural, Debug, Hash)]
pub struct TileClaim {
    pub player: usize,
    pub color: TileColor,
}

/// Everything the game rules read of one tile.
#[derive(Clone, Copy, PartialEq, Eq, Structural, Debug, Hash)]
pub struct TileState {
    pub tile_type: TileType,
    pub claim: Option<TileClaim>,
    /// A building stands on the tile (a tile holds at most one).
    pub has_building: bool,
    /// An ability is placed on the tile (a tile holds at most one).
    pub has_ability: bool,
}

/// A coordinate as the signed 32-bit number it becomes when cast with `as i32`.
pub open spec fn wrap_i32(v: u32) -> int {
    if v < 0x8000_0000 {
        v as int
    } else {
        v as int - 0x1_0000_0000
    }
}

/// The tile at signed coordinates `(x, y)`, if they lie inside the map.
pub open spec fn spec_from_i32_pair(x: int, y: int, size: TilemapSize) -> Option<TilePos> {
    if 0 <= x < size.x && 0 <= y < size.y {
        Some(TilePos { x: x as u32, y: y as u32 })
    } else {
        None
    }
}

pub open spec fn in_bounds(p: TilePos, size: TilemapSize) -> bool {
    p.x < size.x && p.y < size.y
}

/// The four sides of a tile, in the order the neighbours are listed.
#[derive(Clone, Copy, PartialEq, Eq, Structural, Debug, Hash)]
pub enum Side {
    North,
    East,
    South,
    West,
}

/// The tile next to `p` on side `d`, if it lies inside the map.
pub open spec fn spec_step(p: TilePos, d: Side, size: TilemapSize) -> Option<TilePos> {
    let x = wrap_i32(p.x);
    let y = wrap_i32(p.y);
    match d {
        Side::North => spec_from_i32_pair(x, y + 1, size),
        Side::East => spec_from_i32_pair(x + 1, y, size),
        Side::South => spec_from_i32_pair(x, y - 1, size),
        Side::West => spec_from_i32_pair(x - 1, y, size),
    }
}

pub open spec fn push_some(s: Seq<TilePos>, o: Option<TilePos>) -> Seq<TilePos> {
    match o {
        Some(p) => s.push(p),
        None => s,
    }
}

/// The neighbours of `p` inside the map, in the order north, east, south, west.
pub open spec fn spec_neighbors(p: TilePos, size: TilemapSize) -> Seq<TilePos> {
    push_some(
        push_some(
            push_some(push_some(Seq::empty(), spec_step(p, Side::North, size)), spec_step(p, Side::East, size)),
            spec_step(p, Side::South, size),
        ),
        spec_step(p, Side::West, size),
    )
}

/// The coordinates at which computing a neighbour overflows a signed 32-bit number.
pub open spec fn neighbor_safe(p: TilePos) -> bool {
    p.x != 0x7fff_ffff && p.x != 0x8000_0000 && p.y != 0x7fff_ffff && p.y != 0x8000_0000
}

impl TilePos {
    /// The tile at signed coordinates `(x, y)`, or `None` outside the map.
    pub fn from_i32_pair(x: i32, y: i32, map_size: &TilemapSize) -> (r: Option<TilePos>)
        ensures
            r == spec_from_i32_pair(x as int, y as int, *map_size),
    {
        if x < 0 || y < 0 {
            return None;
        }
        if (x as u32) < map_size.x && (y as u32) < map_size.y {
            Some(TilePos { x: x as u32, y: y as u32 })
        } else {
            None
        }
    }
}

fn as_i32_value(v: u32) -> (r: i64)
    ensures
        r == wrap_i32(v),
{
    if v < 0x8000_0000 {
        v as i64
    } else {
        v as i64 - 0x1_0000_0000
    }
}

/// The neighbour of `p` on side `d`, if it lies inside the map.
pub fn step(p: TilePos, d: Side, size: &TilemapSize) -> (r: Option<TilePos>)
    requires
        neighbor_safe(p),
    ensures
        r == spec_step(p, d, *size),
{
    let x = as_i32_value(p.x);
    let y = as_i32_value(p.y);
    let (nx, ny): (i64, i64) = match d {
        Side::North => (x, y + 1),
        Side::East => (x + 1, y),
        Side::South => (x, y - 1),
        Side::West => (x - 1, y),
    };
    TilePos::from_i32_pair(nx as i32, ny as i32, size)
}

/// The neighbours of a tile inside the map: north, east, south and west, in
/// that order, leaving out those that fall outside.
pub fn get_neighbors_tilepos(node_to_get_neighbors: TilePos, tilemap_size: &TilemapSize) -> (r: Vec<TilePos>)
    requires
        neighbor_safe(node_to_get_neighbors),
    ensures
        r@ == spec_neighbors(node_to_get_neighbors, *tilemap_size),
{
    let mut neighbor_tiles: Vec<TilePos> = Vec::new();
    if let Some(north) = step(node_to_get_neighbors, Side::North, tilemap_size) {
        neighbor_tiles.push(north);
    }
    if let Some(east) = step(node_to_get_neighbors, Side::East, tilemap_size) {
        neighbor_tiles.push(east);
    }
    if let Some(south) = step(node_to_get_neighbors, Side::South, tilemap_size) {
        neighbor_tiles.push(south);
    }
    if let Some(west) = step(node_to_get_neighbors, Side::West, tilemap_size) {
        neighbor_tiles.push(west);
    }
    neighbor_tiles
}

/// Every neighbour lies inside the map and next to the tile.
pub proof fn lemma_neighbors_in_bounds(p: TilePos, size: TilemapSize, i: int)
    requires
        0 <= i < spec_neighbors(p, size).len(),
    ensures
        in_bounds(spec_neighbors(p, size)[i], size),
{
}


/// One map of the level data: a name, where players start, and the terrain of
/// each tile, row by row (`tiles[y][x]`).
pub struct Level {
    pub name: String,
    pub spawn_points: Vec<(usize, usize)>,
    pub tiles: Vec<Vec<TileType>>,
}

/// A fresh tile of the given terrain: unclaimed and empty.
pub open spec fn fresh_tile(t: TileType) -> TileState {
    TileState { tile_type: t, claim: None, has_building: false, has_ability: false }
}

/// The size of the map a level describes: the first row's length by the
/// number of rows.
pub open spec fn level_size(level: &Level) -> TilemapSize {
    TilemapSize { x: level.tiles@[0]@.len() as u32, y: level.tiles@.len() as u32 }
}

/// The tile a level puts at `p`.
pub open spec fn level_tile(level: &Level, p: TilePos) -> Option<TileState> {
    if in_bounds(p, level_size(level)) && p.x < level.tiles@[p.y as int]@.len() {
        Some(fresh_tile(level.tiles@[p.y as int]@[p.x as int]))
    } else {
        None
    }
}

/// The rectangular grid of a map. Each cell holds a tile or, where the level
/// data left it out, nothing.
pub struct TileGrid {
    size: TilemapSize,
    tiles: Vec<Option<TileState>>,
}

pub open spec fn cell_index(p: TilePos, size: TilemapSize) -> int {
    p.y * size.x + p.x
}

proof fn lemma_cell_index_bounds(p: TilePos, size: TilemapSize)
    requires
        in_bounds(p, size),
    ensures
        0 <= cell_index(p, size) < size.x * size.y,
{
    assert(p.y * size.x + p.x < size.x * size.y) by (nonlinear_arith)
        requires
            p.x < size.x,
            p.y < size.y,
    ;
    assert(0 <= p.y * size.x) by (nonlinear_arith);
}

proof fn lemma_cell_index_injective(p: TilePos, q: TilePos, size: TilemapSize)
    requires
        in_bounds(p, size),
        in_bounds(q, size),
        cell_index(p, size) == cell_index(q, size),
    ensures
        p == q,
{
    let w = size.x as int;
    let (py, px, qy, qx) = (p.y as int, p.x as int, q.y as int, q.x as int);
    assert(py == qy) by (nonlinear_arith)
        requires
            py * w + px == qy * w + qx,
            0 <= px < w,
            0 <= qx < w,
            0 <= py,
            0 <= qy,
    ;
}

impl TileGrid {
    /// The grid is well formed: its sides fit in 31 bits and it holds one cell
    /// per position.
    pub closed spec fn wf(self) -> bool {
        &&& self.size.x < 0x8000_0000
        &&& self.size.y < 0x8000_0000
        &&& self.tiles@.len() == self.size.x * self.size.y
    }

    pub closed spec fn spec_size(self) -> TilemapSize {
        self.size
    }

    /// The tile at `p`; `None` outside the map or where no tile was placed.
    pub closed spec fn spec_tile(self, p: TilePos) -> Option<TileState> {
        if in_bounds(p, self.size) {
            self.tiles@[cell_index(p, self.size)]
        } else {
            None
        }
    }

    /// The number of cells of the grid.
    pub closed spec fn spec_cell_count(self) -> nat {
        (self.size.x * self.size.y) as nat
    }

    /// Facts every grid satisfies: its sides fit in 31 bits, and tiles only
    /// stand inside it.
    pub proof fn lemma_grid_facts(self)
        requires
            self.wf(),
        ensures
            self.spec_size().x < 0x8000_0000,
            self.spec_size().y < 0x8000_0000,
            self.spec_cell_count() == self.spec_size().x * self.spec_size().y,
            forall|p: TilePos| #[trigger] self.spec_tile(p) is Some ==> in_bounds(p, self.spec_size()),
    {
    }

    /// A map of the given size whose every tile has the given terrain.
    pub fn new_filled(size: TilemapSize, tile_type: TileType) -> (g: TileGrid)
        requires
            size.x < 0x8000_0000,
            size.y < 0x8000_0000,
            size.x * size.y <= usize::MAX,
        ensures
            g.wf(),
            g.spec_size() == size,
            forall|p: TilePos| #[trigger] g.spec_tile(p) == if in_bounds(p, size) {
                Some(fresh_tile(tile_type))
            } else {
                None
            },
    {
        let n: usize = (size.x as usize) * (size.y as usize);
        let mut tiles: Vec<Option<TileState>> = Vec::new();
        let mut i: usize = 0;
        while i < n
            invariant
                i <= n,
                tiles@.len() == i,
                forall|j: int| 0 <= j < i ==> tiles@[j] == Some(fresh_tile(tile_type)),
            decreases n - i,
        {
            tiles.push(Some(TileState { tile_type, claim: None, has_building: false, has_ability: false }));
            i = i + 1;
        }
        let g = TileGrid { size, tiles };
        assert forall|p: TilePos| #[trigger] g.spec_tile(p) == if in_bounds(p, size) {
            Some(fresh_tile(tile_type))
        } else {
            None
        } by {
            if in_bounds(p, size) {
                lemma_cell_index_bounds(p, size);
            }
        }
        g
    }

    /// The map described by level data (`tiles[y][x]` is the terrain at column
    /// `x` of row `y`). The first row gives the width; a shorter row leaves its
    /// last cells without a tile.
    pub fn from_level(level: &Level) -> (g: TileGrid)
        requires
            level.tiles@.len() > 0,
            level.tiles@.len() < 0x8000_0000,
            level.tiles@[0]@.len() < 0x8000_0000,
            level.tiles@[0]@.len() * level.tiles@.len() <= usize::MAX,
            forall|y: int| 0 <= y < level.tiles@.len() ==> #[trigger] level.tiles@[y]@.len() <= level.tiles@[0]@.len(),
        ensures
            g.wf(),
            g.spec_size() == level_size(level),
            forall|p: TilePos| #[trigger] g.spec_tile(p) == level_tile(level, p),
    {
        let h: usize = level.tiles.len();
        let w: usize = level.tiles[0].len();
        let size = TilemapSize { x: w as u32, y: h as u32 };
        let mut tiles: Vec<Option<TileState>> = Vec::new();
        let mut y: usize = 0;
        while y < h
            invariant
                h == level.tiles@.len(),
                w == level.tiles@[0]@.len(),
                size == level_size(level),
                w < 0x8000_0000,
                h < 0x8000_0000,
                size.x == w,
                size.y == h,
                w * h <= usize::MAX,
                y <= h,
                tiles@.len() == y * w,
                forall|p: TilePos| in_bounds(p, size) && cell_index(p, size) < tiles@.len()
                    ==> #[trigger] tiles@[cell_index(p, size)] == level_tile(level, p),
            decreases h - y,
        {
            let row = &level.tiles[y];
            let mut x: usize = 0;
            assert(y * w + w <= w * h) by (nonlinear_arith)
                requires
                    y < h,
            ;
            while x < w
                invariant
                    h == level.tiles@.len(),
                    w == level.tiles@[0]@.len(),
                    size == level_size(level),
                    w < 0x8000_0000,
                    h < 0x8000_0000,
                    size.x == w,
                    size.y == h,
                    w * h <= usize::MAX,
                    y < h,
                    y * w + w <= w * h,
                    *row == level.tiles@[y as int],
                    x <= w,
                    tiles@.len() == y * w + x,
                    forall|p: TilePos| in_bounds(p, size) && cell_index(p, size) < tiles@.len()
                        ==> #[trigger] tiles@[cell_index(p, size)] == level_tile(level, p),
                decreases w - x,
            {
                let here = TilePos { x: x as u32, y: y as u32 };
                let cell = if x < row.len() {
                    Some(TileState { tile_type: row[x], claim: None, has_building: false, has_ability: false })
                } else {
                    None
                };
                assert(cell == level_tile(level, here));
                let ghost old_tiles = tiles@;
                tiles.push(cell);
                assert forall|p: TilePos| in_bounds(p, size) && cell_index(p, size) < tiles@.len()
                    implies #[trigger] tiles@[cell_index(p, size)] == level_tile(level, p) by {
                    if cell_index(p, size) == old_tiles.len() {
                        lemma_cell_index_injective(p, here, size);
                    }
                }
                x = x + 1;
            }
            assert(y * w + w == (y + 1) * w) by (nonlinear_arith);
            y = y + 1;
        }
        assert(tiles@.len() == size.x * size.y) by (nonlinear_arith)
            requires
                tiles@.len() == y * w,
                y == h,
                size.x == w,
                size.y == h,
        ;
        let g = TileGrid { size, tiles };
        assert forall|p: TilePos| #[trigger] g.spec_tile(p) == level_tile(level, p) by {
            if in_bounds(p, size) {
                lemma_cell_index_bounds(p, size);
            }
        }
        g
    }

    /// The position of cell `p` in a flat list of all cells.
    pub closed spec fn spec_index(self, p: TilePos) -> int {
        cell_index(p, self.size)
    }

    /// Cells inside the map have distinct positions in the flat list, all
    /// below the number of cells.
    pub proof fn lemma_index(self, p: TilePos, q: TilePos)
        requires
            self.wf(),
            in_bounds(p, self.spec_size()),
            in_bounds(q, self.spec_size()),
        ensures
            0 <= self.spec_index(p) < self.spec_cell_count(),
            self.spec_index(p) == self.spec_index(q) ==> p == q,
    {
        lemma_cell_index_bounds(p, self.size);
        if cell_index(p, self.size) == cell_index(q, self.size) {
            lemma_cell_index_injective(p, q, self.size);
        }
    }

    /// The cells of the grid in row order: row 0 first, each row from column 0.
    pub closed spec fn spec_cells(self) -> Seq<Option<TileState>> {
        self.tiles@
    }

    /// The cells list holds exactly the tiles of the map, each once: the cell
    /// of each position sits at that position's index, and every index belongs
    /// to a position.
    pub proof fn lemma_cells(self)
        requires
            self.wf(),
        ensures
            self.spec_cells().len() == self.spec_cell_count(),
            forall|p: TilePos| in_bounds(p, self.spec_size())
                ==> #[trigger] self.spec_cells()[self.spec_index(p)] == self.spec_tile(p),
            forall|i: int| 0 <= i < self.spec_cell_count() ==> in_bounds(#[trigger] self.spec_position(i), self.spec_size())
                && self.spec_index(self.spec_position(i)) == i,
    {
        assert forall|i: int| 0 <= i < self.spec_cell_count() implies in_bounds(#[trigger] self.spec_position(i), self.spec_size())
            && self.spec_index(self.spec_position(i)) == i by {
            let w = self.size.x as int;
            let h = self.size.y as int;
            assert(w > 0) by (nonlinear_arith)
                requires
                    0 <= i < w * h,
                    0 <= h,
            ;
            let y = i / w;
            let x = i % w;
            assert(y * w + x == i && 0 <= x < w && 0 <= y < h) by (nonlinear_arith)
                requires
                    w > 0,
                    0 <= i < w * h,
                    y == i / w,
                    x == i % w,
            ;
        }
    }

    /// The position whose cell sits at index `i` of the cells list.
    pub closed spec fn spec_position(self, i: int) -> TilePos {
        TilePos { x: (i % (self.size.x as int)) as u32, y: (i / (self.size.x as int)) as u32 }
    }

    /// The position whose cell sits at index `i` of the cells list.
    pub fn position(&self, i: usize) -> (p: TilePos)
        requires
            self.wf(),
            i < self.spec_cell_count(),
        ensures
            p == self.spec_position(i as int),
    {
        let w = self.size.x as usize;
        let h = self.size.y as usize;
        proof {
            assert(w > 0) by (nonlinear_arith)
                requires
                    i < w * h,
                    0 <= h,
            ;
        }
        TilePos { x: (i % w) as u32, y: (i / w) as u32 }
    }

    /// The cell at index `i` of the cells list.
    pub fn cell(&self, i: usize) -> (c: Option<TileState>)
        requires
            self.wf(),
            i < self.spec_cell_count(),
        ensures
            c == self.spec_cells()[i as int],
    {
        self.tiles[i]
    }

    /// The number of cells of the grid.
    pub fn cell_count(&self) -> (n: usize)
        requires
            self.wf(),
        ensures
            n == self.spec_cell_count(),
    {
        self.tiles.len()
    }

    /// The position of cell `p` in a flat list of all cells.
    pub fn index_of(&self, p: TilePos) -> (i: usize)
        requires
            self.wf(),
            in_bounds(p, self.spec_size()),
        ensures
            i == self.spec_index(p),
            i < self.spec_cell_count(),
    {
        let n = self.tiles.len();
        proof {
            lemma_cell_index_bounds(p, self.size);
            assert(p.y * self.size.x <= cell_index(p, self.size));
        }
        (p.y as usize) * (self.size.x as usize) + (p.x as usize)
    }

    pub fn size(&self) -> (s: TilemapSize)
        ensures
            s == self.spec_size(),
    {
        self.size
    }

    /// The tile at `p`, if there is one.
    pub fn get(&self, p: TilePos) -> (t: Option<TileState>)
        requires
            self.wf(),
        ensures
            t == self.spec_tile(p),
    {
        if p.x < self.size.x && p.y < self.size.y {
            let n = self.tiles.len();
            proof {
                lemma_cell_index_bounds(p, self.size);
                assert(p.y * self.size.x <= cell_index(p, self.size));
            }
            let i = (p.y as usize) * (self.size.x as usize) + (p.x as usize);
            self.tiles[i]
        } else {
            None
        }
    }

    /// Puts `t` in the cell at `p`, which must lie inside the map.
    pub fn set_tile(&mut self, p: TilePos, t: Option<TileState>)
        requires
            old(self).wf(),
            in_bounds(p, old(self).spec_size()),
        ensures
            final(self).wf(),
            final(self).spec_size() == old(self).spec_size(),
            final(self).spec_tile(p) == t,
            forall|q: TilePos| q != p ==> #[trigger] final(self).spec_tile(q) == old(self).spec_tile(q),
    {
        let n = self.tiles.len();
        proof {
            lemma_cell_index_bounds(p, self.size);
            assert(p.y * self.size.x <= cell_index(p, self.size));
        }
        let i = (p.y as usize) * (self.size.x as usize) + (p.x as usize);
        self.tiles.set(i, t);
        proof {
            assert forall|q: TilePos| q != p implies #[trigger] self.spec_tile(q) == old(self).spec_tile(q) by {
                if in_bounds(q, self.size) {
                    lemma_cell_index_bounds(q, self.size);
                    if cell_index(q, self.size) == cell_index(p, self.size) {
                        lemma_cell_index_injective(p, q, self.size);
                    }
                }
            }
        }
    }
}

} // verus!
