//! The tile grid: tiles, coordinates and bounds-checked lookups.

use vstd::prelude::*;
use crate::ring::{
    chebyshev, lemma_on_ring_chebyshev, lemma_ring_offset_on_ring, lemma_ring_position_offset,
    ring_cells_before, ring_len, ring_offset, ring_position,
};

verus! {

/// Number of tile columns.
pub const GRID_WIDTH: usize = 21;

/// Number of tiles in one column.
pub const GRID_HEIGHT: usize = 21;

/// What stands on a tile.
#[derive(Copy, Clone, Debug, PartialEq, Eq, Structural)]
pub enum TileState {
    Wall,
    Floor,
    Tower,
    Number,
    Castle,
}

/// Why a tower cannot be placed on a tile.
#[derive(Copy, Clone, Debug, PartialEq, Eq, Structural)]
pub enum PlaceError {
    /// The tile already holds a tower.
    TowerAlready,
    /// The tile is not a wall.
    Floor,
}

/// Which of its colours a tile shows.
#[derive(Copy, Clone, Debug, PartialEq, Eq, Structural)]
pub enum TileColour {
    /// The tile's own wall colour.
    Wall,
    /// The tile's floor colour.
    Floor,
    /// The colour shared by every other tile.
    Plain,
}

/// One cell of the grid.
#[derive(Copy, Clone, Debug, PartialEq, Eq, Structural)]
pub struct Tile {
    pub tile_state: TileState,
    /// Count of mines around the tile; it has a meaning on floor tiles only.
    pub number: usize,
    pub x: usize,
    pub y: usize,
}

impl Tile {
    /// A fresh wall tile at `(x, y)` with number 0.
    pub fn new(x: usize, y: usize) -> (t: Tile)
        ensures
            t == (Tile { tile_state: TileState::Wall, number: 0, x, y }),
    {
        Tile { tile_state: TileState::Wall, number: 0, x, y }
    }

    /// What an attempt to build a tower on the tile comes to: the answer
    /// and the tile afterwards. Only a wall takes the tower; a tower, and
    /// any other tile that is no wall, is rejected and left as it was.
    pub open spec fn tower_attempt(self) -> (Result<(), PlaceError>, Tile) {
        match self.tile_state {
            TileState::Wall => (Ok(()), Tile { tile_state: TileState::Tower, ..self }),
            TileState::Tower => (Err(PlaceError::TowerAlready), self),
            _ => (Err(PlaceError::Floor), self),
        }
    }

    /// Turns a wall into a tower. A tile that already is a tower, and any
    /// other tile that is no wall, is rejected and left as it was.
    pub fn try_spawn_tower(&mut self) -> (r: Result<(), PlaceError>)
        ensures
            (r, *final(self)) == old(self).tower_attempt(),
    {
        match self.tile_state {
            TileState::Wall => {
                self.tile_state = TileState::Tower;
                Ok(())
            },
            TileState::Tower => Err(PlaceError::TowerAlready),
            _ => Err(PlaceError::Floor),
        }
    }

    /// The colour the tile is drawn in: walls in their wall colour, floors
    /// and towers in their floor colour, everything else plain.
    pub fn get_colour(&self) -> (c: TileColour)
        ensures
            c == match self.tile_state {
                TileState::Wall => TileColour::Wall,
                TileState::Floor => TileColour::Floor,
                TileState::Tower => TileColour::Floor,
                _ => TileColour::Plain,
            },
    {
        match self.tile_state {
            TileState::Wall => TileColour::Wall,
            TileState::Floor => TileColour::Floor,
            TileState::Tower => TileColour::Floor,
            _ => TileColour::Plain,
        }
    }
}

/// A second attempt to build on the same wall is rejected because the tower
/// is already there, and leaves the tile as the first attempt made it.
pub proof fn lemma_second_tower_rejected(t: Tile)
    requires
        t.tile_state == TileState::Wall,
    ensures
        t.tower_attempt().0 == Ok::<(), PlaceError>(()),
        t.tower_attempt().1.tower_attempt() == (
            Err::<(), PlaceError>(PlaceError::TowerAlready),
            t.tower_attempt().1,
        ),
{
}

/// Handle to a tile of the grid: its index in `Grid::tiles`.
#[derive(Copy, Clone, Debug, PartialEq, Eq, Structural)]
pub struct TileInfo {
    pub index: usize,
}

/// A signed grid coordinate; it may lie off the grid.
#[derive(Copy, Clone, Debug, PartialEq, Eq, Hash, Structural)]
pub struct Coords {
    pub x: i32,
    pub y: i32,
}

/// Offset of the `k`-th of the eight neighbours, clockwise from north:
/// N, NE, E, SE, S, SW, W, NW.
pub open spec fn neighbour_offset(k: int) -> (int, int) {
    if k == 0 {
        (0, 1)
    } else if k == 1 {
        (1, 1)
    } else if k == 2 {
        (1, 0)
    } else if k == 3 {
        (1, -1)
    } else if k == 4 {
        (0, -1)
    } else if k == 5 {
        (-1, -1)
    } else if k == 6 {
        (-1, 0)
    } else {
        (-1, 1)
    }
}

impl Coords {
    pub fn new(x: i32, y: i32) -> (c: Coords)
        ensures
            c == (Coords { x, y }),
    {
        Coords { x, y }
    }

    /// The coordinate at offset `(dx, dy)` from this one.
    pub open spec fn offset(self, dx: int, dy: int) -> Coords {
        Coords { x: (self.x + dx) as i32, y: (self.y + dy) as i32 }
    }

    /// Whether every coordinate within `reach` of this one fits the machine
    /// integers.
    pub open spec fn has_room(self, reach: int) -> bool {
        &&& i32::MIN <= self.x - reach
        &&& self.x + reach <= i32::MAX
        &&& i32::MIN <= self.y - reach
        &&& self.y + reach <= i32::MAX
    }

    /// The eight neighbours, clockwise from north.
    pub open spec fn neighbours(self) -> Seq<Coords> {
        Seq::new(8, |k: int| self.offset(neighbour_offset(k).0, neighbour_offset(k).1))
    }

    /// The ring of radius `radius` around this coordinate, column by column.
    pub open spec fn ring(self, radius: int) -> Seq<Coords> {
        Seq::new(
            ring_len(radius),
            |k: int| self.offset(ring_offset(radius, k).0, ring_offset(radius, k).1),
        )
    }

    /// The eight neighbours, clockwise from north: N, NE, E, SE, S, SW, W, NW.
    pub fn get_neighbour_coords(self) -> (v: Vec<Coords>)
        requires
            self.has_room(1),
        ensures
            v@ == self.neighbours(),
    {
        let a = Coords::new(self.x, self.y + 1);
        let b = Coords::new(self.x + 1, self.y + 1);
        let c = Coords::new(self.x + 1, self.y);
        let d = Coords::new(self.x + 1, self.y - 1);
        let e = Coords::new(self.x, self.y - 1);
        let f = Coords::new(self.x - 1, self.y - 1);
        let g = Coords::new(self.x - 1, self.y);
        let h = Coords::new(self.x - 1, self.y + 1);
        let v = vec![a, b, c, d, e, f, g, h];
        assert(v@ =~= self.neighbours());
        v
    }

    /// The ring of radius `radius` around this coordinate: the centre itself
    /// for radius 0, the perimeter of the square of side `2 * radius + 1`
    /// otherwise, and nothing for a negative radius.
    pub fn get_ring_coords(self, radius: i32) -> (v: Vec<Coords>)
        requires
            radius >= 0 ==> self.has_room(radius as int),
        ensures
            v@ == self.ring(radius as int),
    {
        let mut v: Vec<Coords> = Vec::new();
        if radius < 0 {
            assert(v@ =~= self.ring(radius as int));
            return v;
        }
        let r: i64 = radius as i64;
        let mut i: i64 = -r;
        while i <= r
            invariant
                r == radius,
                0 <= r,
                self.has_room(r as int),
                -r <= i <= r + 1,
                v@.len() == ring_cells_before(r as int, i as int, -r as int),
                forall|k: int|
                    0 <= k < v@.len() ==> v@[k] == self.offset(
                        ring_offset(r as int, k).0,
                        ring_offset(r as int, k).1,
                    ),
            decreases r - i + 1,
        {
            let mut j: i64 = -r;
            while j <= r
                invariant
                    r == radius,
                    0 <= r,
                    self.has_room(r as int),
                    -r <= i <= r,
                    -r <= j <= r + 1,
                    v@.len() == ring_cells_before(r as int, i as int, j as int),
                    forall|k: int|
                        0 <= k < v@.len() ==> v@[k] == self.offset(
                            ring_offset(r as int, k).0,
                            ring_offset(r as int, k).1,
                        ),
                decreases r - j + 1,
            {
                if i == -r || i == r || j == -r || j == r {
                    proof {
                        lemma_ring_position_offset(r as int, i as int, j as int);
                    }
                    let x: i64 = self.x as i64 + i;
                    let y: i64 = self.y as i64 + j;
                    v.push(Coords::new(x as i32, y as i32));
                }
                j = j + 1;
            }
            i = i + 1;
        }
        assert(v@ =~= self.ring(radius as int));
        v
    }
}

/// The ring of radius `radius` around `center` holds exactly the coordinates
/// at Chebyshev distance `radius` from it.
pub proof fn lemma_ring_complete(center: Coords, radius: int, p: Coords)
    requires
        radius >= 0,
        center.has_room(radius),
    ensures
        center.ring(radius).contains(p) <==> chebyshev(
            p.x as int,
            p.y as int,
            center.x as int,
            center.y as int,
        ) == radius,
{
    let ring = center.ring(radius);
    let i = p.x - center.x;
    let j = p.y - center.y;
    lemma_on_ring_chebyshev(radius, i, j);
    if ring.contains(p) {
        let k = choose|k: int| 0 <= k < ring.len() && ring[k] == p;
        lemma_ring_offset_on_ring(radius, k);
    }
    if chebyshev(p.x as int, p.y as int, center.x as int, center.y as int) == radius {
        lemma_ring_position_offset(radius, i, j);
        let k = ring_position(radius, i, j);
        assert(ring[k] == p);
    }
}

/// No coordinate occurs twice on a ring.
pub proof fn lemma_ring_distinct(center: Coords, radius: int)
    requires
        radius >= 0,
        center.has_room(radius),
    ensures
        center.ring(radius).no_duplicates(),
{
    let ring = center.ring(radius);
    assert forall|a: int, b: int| 0 <= a < ring.len() && 0 <= b < ring.len() && a != b implies ring[a]
        != ring[b] by {
        lemma_ring_offset_on_ring(radius, a);
        lemma_ring_offset_on_ring(radius, b);
    }
}

/// The tile lattice, stored column by column: the tile at `(x, y)` has index
/// `x * GRID_HEIGHT + y`.
pub struct Grid {
    pub tiles: Vec<Tile>,
}

impl Grid {
    /// The grid is complete and every tile knows its own coordinates.
    pub open spec fn wf(&self) -> bool {
        &&& self.tiles@.len() == GRID_WIDTH * GRID_HEIGHT
        &&& forall|i: int|
            0 <= i < self.tiles@.len() ==> (#[trigger] self.tiles@[i]).x == i / (GRID_HEIGHT as int)
                && self.tiles@[i].y == i % (GRID_HEIGHT as int)
    }

    /// The handle of the tile at `(x, y)`, if the grid holds one there.
    pub open spec fn tile_at(&self, x: int, y: int) -> Option<TileInfo> {
        if 0 <= x < GRID_WIDTH && 0 <= y < GRID_HEIGHT && x * GRID_HEIGHT + y < self.tiles@.len() {
            Some(TileInfo { index: (x * GRID_HEIGHT + y) as usize })
        } else {
            None
        }
    }

    /// A complete grid of wall tiles, all with number 0.
    pub fn new() -> (g: Grid)
        ensures
            g.wf(),
            forall|i: int|
                0 <= i < g.tiles@.len() ==> (#[trigger] g.tiles@[i]).tile_state == TileState::Wall
                    && g.tiles@[i].number == 0,
    {
        let mut tiles: Vec<Tile> = Vec::new();
        let mut i: usize = 0;
        while i < GRID_WIDTH
            invariant
                i <= GRID_WIDTH,
                tiles@.len() == i * GRID_HEIGHT,
                forall|k: int|
                    0 <= k < tiles@.len() ==> (#[trigger] tiles@[k]) == (Tile {
                        tile_state: TileState::Wall,
                        number: 0,
                        x: (k / (GRID_HEIGHT as int)) as usize,
                        y: (k % (GRID_HEIGHT as int)) as usize,
                    }),
            decreases GRID_WIDTH - i,
        {
            let mut j: usize = 0;
            while j < GRID_HEIGHT
                invariant
                    i < GRID_WIDTH,
                    j <= GRID_HEIGHT,
                    tiles@.len() == i * GRID_HEIGHT + j,
                    forall|k: int|
                        0 <= k < tiles@.len() ==> (#[trigger] tiles@[k]) == (Tile {
                            tile_state: TileState::Wall,
                            number: 0,
                            x: (k / (GRID_HEIGHT as int)) as usize,
                            y: (k % (GRID_HEIGHT as int)) as usize,
                        }),
                decreases GRID_HEIGHT - j,
            {
                tiles.push(Tile::new(i, j));
                j = j + 1;
            }
            i = i + 1;
        }
        Grid { tiles }
    }

    /// Bounds-checked lookup of the tile at `(x, y)`.
    pub fn get_xy(&self, x: usize, y: usize) -> (r: Option<TileInfo>)
        ensures
            r == self.tile_at(x as int, y as int),
    {
        if x >= GRID_WIDTH || y >= GRID_HEIGHT {
            return None;
        }
        let index: usize = x * GRID_HEIGHT + y;
        if index < self.tiles.len() {
            Some(TileInfo { index })
        } else {
            None
        }
    }

    /// Lookup by signed coordinate; a negative component finds no tile.
    pub fn get_coords(&self, coords: Coords) -> (r: Option<TileInfo>)
        ensures
            r == self.tile_at(coords.x as int, coords.y as int),
    {
        if coords.x < 0 || coords.y < 0 {
            return None;
        }
        self.get_xy(coords.x as usize, coords.y as usize)
    }

    /// The eight neighbours of `(x, y)`, clockwise from north; a neighbour
    /// off the grid is `None`.
    pub fn get_neighbours(&self, x: usize, y: usize) -> (v: Vec<Option<TileInfo>>)
        requires
            x < usize::MAX,
            y < usize::MAX,
        ensures
            v@.len() == 8,
            forall|k: int|
                0 <= k < 8 ==> v@[k] == self.tile_at(
                    x + neighbour_offset(k).0,
                    y + neighbour_offset(k).1,
                ),
    {
        let a = self.get_xy(x, y + 1);
        let b = self.get_xy(x + 1, y + 1);
        let c = self.get_xy(x + 1, y);
        let mut d = None;
        let mut e = None;
        let mut f = None;
        let mut g = None;
        let mut h = None;
        if y > 0 {
            d = self.get_xy(x + 1, y - 1);
            e = self.get_xy(x, y - 1);
        }
        if x > 0 && y > 0 {
            f = self.get_xy(x - 1, y - 1);
        }
        if x > 0 {
            g = self.get_xy(x - 1, y);
            h = self.get_xy(x - 1, y + 1);
        }
        vec![a, b, c, d, e, f, g, h]
    }

    /// The tiles on the ring of radius `radius` around `(x, y)`, in ring
    /// order; a ring cell off the grid is `None`.
    pub fn get_ring(&self, x: usize, y: usize, radius: i32) -> (v: Vec<Option<TileInfo>>)
        requires
            radius >= 0 ==> x + radius <= i32::MAX && y + radius <= i32::MAX,
        ensures
            v@.len() == ring_len(radius as int),
            forall|k: int|
                0 <= k < v@.len() ==> v@[k] == self.tile_at(
                    x + ring_offset(radius as int, k).0,
                    y + ring_offset(radius as int, k).1,
                ),
    {
        let mut v: Vec<Option<TileInfo>> = Vec::new();
        if radius < 0 {
            return v;
        }
        let r: i64 = radius as i64;
        let mut i: i64 = -r;
        while i <= r
            invariant
                r == radius,
                0 <= r,
                x + r <= i32::MAX,
                y + r <= i32::MAX,
                -r <= i <= r + 1,
                v@.len() == ring_cells_before(r as int, i as int, -r as int),
                forall|k: int|
                    0 <= k < v@.len() ==> v@[k] == self.tile_at(
                        x + ring_offset(r as int, k).0,
                        y + ring_offset(r as int, k).1,
                    ),
            decreases r - i + 1,
        {
            let mut j: i64 = -r;
            while j <= r
                invariant
                    r == radius,
                    0 <= r,
                    x + r <= i32::MAX,
                    y + r <= i32::MAX,
                    -r <= i <= r,
                    -r <= j <= r + 1,
                    v@.len() == ring_cells_before(r as int, i as int, j as int),
                    forall|k: int|
                        0 <= k < v@.len() ==> v@[k] == self.tile_at(
                            x + ring_offset(r as int, k).0,
                            y + ring_offset(r as int, k).1,
                        ),
                decreases r - j + 1,
            {
                if i == -r || i == r || j == -r || j == r {
                    proof {
                        lemma_ring_position_offset(r as int, i as int, j as int);
                    }
                    let i2: i64 = x as i64 + i;
                    let j2: i64 = y as i64 + j;
                    let a = if i2 >= 0 && j2 >= 0 {
                        self.get_xy(i2 as usize, j2 as usize)
                    } else {
                        None
                    };
                    v.push(a);
                }
                j = j + 1;
            }
            i = i + 1;
        }
        v
    }

    /// The sixteen tiles on the ring of radius 2 around `(x, y)`.
    pub fn get_5x5_ring(&self, x: usize, y: usize) -> (v: Vec<Option<TileInfo>>)
        requires
            x + 2 <= i32::MAX,
            y + 2 <= i32::MAX,
        ensures
            v@.len() == 16,
            forall|k: int|
                0 <= k < 16 ==> v@[k] == self.tile_at(x + ring_offset(2, k).0, y + ring_offset(2, k).1),
    {
        self.get_ring(x, y, 2)
    }
}

} // verus!
