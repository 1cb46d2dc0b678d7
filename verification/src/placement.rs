//! One tower placement from start to finish, in the order the rules ask
//! for: build, then lower the numbers around, then grow and expand the
//! territory if a number was filled.

use vstd::prelude::*;
use crate::castle::{grown, number_filled, Castle, TerritoryInfo};
use crate::coord_set::CoordSet;
use crate::grid::{Grid, Tile, TileInfo, TileState};
use crate::territory::{
    decrement_numbers, decremented, expand_floor, expanded, expansion_mines, filled_among,
};
use crate::tower::{spawn_outcome, spawn_tower, SpawnError, TowerPlacedEvent};

verus! {

/// What a successful placement brought about.
pub struct PlacementOutcome {
    /// Where the tower stands.
    pub placed: TowerPlacedEvent,
    /// How many numbers around the tower reached zero.
    pub filled: usize,
    /// The mines of the expansion that followed, if a number was filled.
    pub mines: Option<CoordSet>,
}

/// The tiles once the tile at `index` has become a tower.
pub open spec fn built(tiles: Seq<Tile>, index: int) -> Seq<Tile> {
    tiles.update(index, Tile { tile_state: TileState::Tower, ..tiles[index] })
}

/// The tiles once the tile at `index` has become a tower and the numbers
/// around it have been lowered.
pub open spec fn lowered(tiles: Seq<Tile>, index: int) -> Seq<Tile> {
    decremented(built(tiles, index), tiles[index].x as int, tiles[index].y as int)
}

/// How many numbers the tower at `index` fills.
pub open spec fn fills(tiles: Seq<Tile>, index: int) -> nat {
    filled_among(built(tiles, index), tiles[index].x as int, tiles[index].y as int, 8)
}

/// Builds a tower on the selected tile and settles what follows from it
/// before returning. A rejected tower changes nothing. An accepted one is
/// paid for, lowers the numbers around it, and, if one of them reached
/// zero, makes the territory grow once and expand.
pub fn place_tower(
    grid: &mut Grid,
    castle: &mut Castle,
    territory: &mut TerritoryInfo,
    selected: TileInfo,
    cost: u32,
) -> (r: Result<PlacementOutcome, SpawnError>)
    requires
        old(grid).wf(),
        selected.index < old(grid).tiles@.len(),
        old(territory).radius >= 1,
        old(territory).bombs_percent <= u32::MAX - 10,
        old(territory).x + old(territory).radius + 3 <= i32::MAX,
        old(territory).y + old(territory).radius + 3 <= i32::MAX,
        !old(territory).battlements_style ==> forall|i: int|
            0 <= i < old(grid).tiles@.len() ==> old(grid).tiles@[i].number <= usize::MAX - 8,
    ensures
        final(grid).wf(),
        match spawn_outcome(old(grid).tiles@, old(castle).money, selected.index as int, cost) {
            Err(e) => {
                &&& r matches Err(f) && f == e
                &&& final(grid).tiles@ == old(grid).tiles@
                &&& *final(castle) == *old(castle)
                &&& *final(territory) == *old(territory)
            },
            Ok(event) => {
                &&& r matches Ok(outcome) && outcome.placed == event && outcome.filled == fills(
                    old(grid).tiles@,
                    selected.index as int,
                ) && (outcome.filled == 0 ==> outcome.mines.is_none() && final(grid).tiles@
                    == lowered(old(grid).tiles@, selected.index as int) && *final(territory)
                    == *old(territory)) && (outcome.filled > 0 ==> outcome.mines.is_some()
                    && outcome.mines.unwrap()@ == expansion_mines(
                    lowered(old(grid).tiles@, selected.index as int),
                    grown(*old(territory)),
                ) && final(grid).tiles@ == expanded(
                    lowered(old(grid).tiles@, selected.index as int),
                    grown(*old(territory)),
                ) && *final(territory) == grown(*old(territory)))
                &&& *final(castle) == (Castle {
                    money: (old(castle).money - cost) as u32,
                    ..*old(castle)
                })
            },
        },
{
    match spawn_tower(grid, castle, selected, cost) {
        Err(e) => Err(e),
        Ok(placed) => {
            let filled = decrement_numbers(grid, placed.x, placed.y);
            let expand = number_filled(territory, filled > 0);
            let mines = if expand {
                Some(expand_floor(grid, territory))
            } else {
                None
            };
            Ok(PlacementOutcome { placed, filled, mines })
        },
    }
}

} // verus!
