//! Tower placement.

use vstd::prelude::*;
use crate::castle::Castle;
use crate::grid::{Grid, PlaceError, Tile, TileInfo, TileState, GRID_HEIGHT, GRID_WIDTH};
use crate::ring::{
    chebyshev, lemma_on_ring_chebyshev, lemma_ring_offset_on_ring, lemma_ring_position_offset,
    ring_offset, ring_position,
};

verus! {

/// A tower now stands on the tile at `(x, y)`.
#[derive(Copy, Clone, Debug, PartialEq, Eq, Structural)]
pub struct TowerPlacedEvent {
    pub x: usize,
    pub y: usize,
}

/// Why a tower was not built.
#[derive(Copy, Clone, Debug, PartialEq, Eq, Structural)]
pub enum SpawnError {
    /// None of the eight tiles around is floor.
    NoFloorNearby,
    /// The tower costs more than the castle has.
    TooExpensive,
    /// The tile itself refused the tower.
    Place(PlaceError),
}

/// Whether one of the tiles around `(x, y)` is floor.
pub open spec fn floor_nearby(tiles: Seq<Tile>, x: int, y: int) -> bool {
    exists|i: int|
        0 <= i < tiles.len() && chebyshev((#[trigger] tiles[i]).x as int, tiles[i].y as int, x, y)
            == 1 && tiles[i].tile_state == TileState::Floor
}

/// Whether one of the tiles around `(x, y)` is floor.
pub fn has_floor_nearby(grid: &Grid, x: usize, y: usize) -> (found: bool)
    requires
        grid.wf(),
        x < GRID_WIDTH,
        y < GRID_HEIGHT,
    ensures
        found == floor_nearby(grid.tiles@, x as int, y as int),
{
    let ring = grid.get_ring(x, y, 1);
    let mut k: usize = 0;
    while k < ring.len()
        invariant
            grid.wf(),
            x < GRID_WIDTH,
            y < GRID_HEIGHT,
            k <= ring@.len(),
            ring@.len() == 8,
            forall|q: int|
                0 <= q < 8 ==> ring@[q] == grid.tile_at(
                    x + ring_offset(1, q).0,
                    y + ring_offset(1, q).1,
                ),
            forall|q: int|
                0 <= q < k ==> match #[trigger] ring@[q] {
                    Some(info) => grid.tiles@[info.index as int].tile_state != TileState::Floor,
                    None => true,
                },
        decreases ring@.len() - k,
    {
        if let Some(neighbour) = ring[k] {
            if grid.tiles[neighbour.index].tile_state == TileState::Floor {
                proof {
                    lemma_ring_offset_on_ring(1, k as int);
                    let i = neighbour.index as int;
                    assert(grid.tiles@[i].x == x + ring_offset(1, k as int).0);
                    assert(grid.tiles@[i].y == y + ring_offset(1, k as int).1);
                }
                return true;
            }
        }
        k = k + 1;
    }
    proof {
        assert forall|i: int| 0 <= i < grid.tiles@.len() && chebyshev(
            (#[trigger] grid.tiles@[i]).x as int,
            grid.tiles@[i].y as int,
            x as int,
            y as int,
        ) == 1 implies grid.tiles@[i].tile_state != TileState::Floor by {
            let dx = grid.tiles@[i].x - x;
            let dy = grid.tiles@[i].y - y;
            lemma_on_ring_chebyshev(1, dx, dy);
            lemma_ring_position_offset(1, dx, dy);
            let q = ring_position(1, dx, dy);
            assert(ring@[q] == grid.tile_at(x + dx, y + dy));
        }
    }
    false
}

/// Tries to build a tower that costs `cost` on the selected tile. The tile
/// needs floor next to it, the castle the money, and the tile must be a
/// wall; the first of these that fails is the error, and then nothing
/// changes. On success the tile becomes a tower and the castle pays.
pub fn spawn_tower(grid: &mut Grid, castle: &mut Castle, selected: TileInfo, cost: u32) -> (r: Result<
    TowerPlacedEvent,
    SpawnError,
>)
    requires
        old(grid).wf(),
        selected.index < old(grid).tiles@.len(),
    ensures
        final(grid).wf(),
        r == spawn_outcome(old(grid).tiles@, old(castle).money, selected.index as int, cost),
        r.is_err() ==> final(grid).tiles@ == old(grid).tiles@ && *final(castle) == *old(castle),
        r.is_ok() ==> final(grid).tiles@ == old(grid).tiles@.update(
            selected.index as int,
            Tile { tile_state: TileState::Tower, ..old(grid).tiles@[selected.index as int] },
        ) && *final(castle) == (Castle {
            money: (old(castle).money - cost) as u32,
            ..*old(castle)
        }),
{
    let mut tile = grid.tiles[selected.index];
    if !has_floor_nearby(grid, tile.x, tile.y) {
        return Err(SpawnError::NoFloorNearby);
    }
    if cost > castle.money {
        return Err(SpawnError::TooExpensive);
    }
    match tile.try_spawn_tower() {
        Ok(_) => {
            castle.money = castle.money - cost;
            grid.tiles.set(selected.index, tile);
            Ok(TowerPlacedEvent { x: tile.x, y: tile.y })
        },
        Err(e) => Err(SpawnError::Place(e)),
    }
}

/// What an attempt to build on the tile at `index` comes to.
pub open spec fn spawn_outcome(tiles: Seq<Tile>, money: u32, index: int, cost: u32) -> Result<
    TowerPlacedEvent,
    SpawnError,
> {
    let tile = tiles[index];
    if !floor_nearby(tiles, tile.x as int, tile.y as int) {
        Err(SpawnError::NoFloorNearby)
    } else if cost > money {
        Err(SpawnError::TooExpensive)
    } else if tile.tile_state == TileState::Wall {
        Ok(TowerPlacedEvent { x: tile.x, y: tile.y })
    } else if tile.tile_state == TileState::Tower {
        Err(SpawnError::Place(PlaceError::TowerAlready))
    } else {
        Err(SpawnError::Place(PlaceError::Floor))
    }
}

} // verus!
