use minesweeper_td::castle::{Castle, TerritoryInfo};
use minesweeper_td::grid::{Grid, PlaceError, Tile, TileState};
use minesweeper_td::placement::place_tower;
use minesweeper_td::territory::expand_floor;
use minesweeper_td::tower::{SpawnError, TowerPlacedEvent};

fn started() -> (Grid, Castle, TerritoryInfo) {
    let mut grid = Grid::new();
    let territory = TerritoryInfo::new();
    expand_floor(&mut grid, &territory);
    (grid, Castle { health: 100, money: 100 }, territory)
}

fn number_at(grid: &Grid, x: usize, y: usize) -> usize {
    grid.tiles[x * 21 + y].number
}

#[test]
fn a_rejected_tower_changes_nothing() {
    let (mut grid, mut castle, mut territory) = started();
    let tiles = grid.tiles.clone();
    let far = grid.get_xy(3, 3).unwrap();
    let r = place_tower(&mut grid, &mut castle, &mut territory, far, 10);
    assert!(matches!(r, Err(SpawnError::NoFloorNearby)));
    let floor = grid.get_xy(9, 9).unwrap();
    let r = place_tower(&mut grid, &mut castle, &mut territory, floor, 10);
    assert!(matches!(r, Err(SpawnError::Place(PlaceError::Floor))));
    let wall = grid.get_xy(10, 11).unwrap();
    let r = place_tower(&mut grid, &mut castle, &mut territory, wall, 101);
    assert!(matches!(r, Err(SpawnError::TooExpensive)));
    assert_eq!(grid.tiles, tiles);
    assert_eq!(castle, Castle { health: 100, money: 100 });
    assert_eq!(territory, TerritoryInfo::new());
}

#[test]
fn a_tower_lowers_the_numbers_around_it() {
    let (mut grid, mut castle, mut territory) = started();
    let before = grid.tiles.clone();
    let spot = grid.get_xy(10, 11).unwrap();
    let outcome = place_tower(&mut grid, &mut castle, &mut territory, spot, 10).ok().unwrap();
    assert_eq!(outcome.placed, TowerPlacedEvent { x: 10, y: 11 });
    assert_eq!(outcome.filled, 0);
    assert!(outcome.mines.is_none());
    assert_eq!(castle.money, 90);
    assert_eq!(territory, TerritoryInfo::new());
    assert_eq!(number_at(&grid, 9, 11), 4);
    assert_eq!(number_at(&grid, 11, 11), 1);
    assert_eq!(number_at(&grid, 9, 9), 6);
    assert_eq!(number_at(&grid, 11, 9), 2);
    assert_eq!(number_at(&grid, 10, 10), 0);
    for (t, b) in grid.tiles.iter().zip(before.iter()) {
        if (t.x, t.y) == (10, 11) {
            assert_eq!(*t, Tile { tile_state: TileState::Tower, ..*b });
        } else {
            assert_eq!(t.tile_state, b.tile_state);
            assert!(t.number <= b.number);
        }
    }
}

#[test]
fn a_filled_number_expands_the_territory_at_once() {
    let (mut grid, mut castle, mut territory) = started();
    let first = grid.get_xy(10, 11).unwrap();
    assert!(place_tower(&mut grid, &mut castle, &mut territory, first, 10).is_ok());
    let second = grid.get_xy(11, 10).unwrap();
    let outcome = place_tower(&mut grid, &mut castle, &mut territory, second, 15).ok().unwrap();
    assert_eq!(outcome.placed, TowerPlacedEvent { x: 11, y: 10 });
    assert_eq!(outcome.filled, 1);
    assert_eq!(castle.money, 75);
    assert_eq!(
        territory,
        TerritoryInfo { radius: 3, x: 10, y: 10, bombs_percent: 60, battlements_style: true }
    );
    let mines = outcome.mines.unwrap().to_vec();
    assert_eq!(mines.len(), 26);
    for t in &grid.tiles {
        let d = (t.x as i64 - 10).abs().max((t.y as i64 - 10).abs());
        if (t.x, t.y) == (10, 11) || (t.x, t.y) == (11, 10) {
            assert_eq!(t.tile_state, TileState::Tower);
        } else if d <= 2 {
            assert_eq!((t.tile_state, t.number), (TileState::Floor, 0));
        } else if d == 3 && (t.x + t.y) % 2 == 0 {
            let around = mines
                .iter()
                .filter(|m| {
                    (m.x as i64 - t.x as i64).abs().max((m.y as i64 - t.y as i64).abs()) == 1
                })
                .count();
            assert_eq!((t.tile_state, t.number), (TileState::Floor, around));
        } else {
            assert_eq!((t.tile_state, t.number), (TileState::Wall, 0));
        }
    }
}
