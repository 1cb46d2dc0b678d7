use minesweeper_td::castle::{number_filled, Castle, TerritoryInfo};
use minesweeper_td::coord_set::CoordSet;
use minesweeper_td::grid::{Coords, Grid, Tile, TileState};
use minesweeper_td::territory::{
    add_mine_counts, apply_edit, collect_battlement_walls, collect_brute_walls,
    count_adjacent_mines, decrement_numbers, edit_ring, expand_floor, sample_mines, RingEdit,
};

fn cheb(ax: i64, ay: i64, bx: i64, by: i64) -> i64 {
    (ax - bx).abs().max((ay - by).abs())
}

fn set_of(cells: &[(i32, i32)]) -> CoordSet {
    let mut s = CoordSet::new();
    for (x, y) in cells {
        s.insert(Coords::new(*x, *y));
    }
    s
}

fn mines_around(mines: &[Coords], x: usize, y: usize) -> usize {
    mines.iter().filter(|m| cheb(m.x as i64, m.y as i64, x as i64, y as i64) == 1).count()
}

fn tile<'a>(grid: &'a Grid, x: usize, y: usize) -> &'a Tile {
    &grid.tiles[x * 21 + y]
}

fn info(radius: i32, bombs_percent: u32, battlements_style: bool) -> TerritoryInfo {
    TerritoryInfo { radius, x: 10, y: 10, bombs_percent, battlements_style }
}

#[test]
fn territory_starts_small() {
    let t = TerritoryInfo::new();
    assert_eq!(t, info(1, 50, true));
}

#[test]
fn a_filled_number_grows_the_territory() {
    let mut t = TerritoryInfo::new();
    assert!(!number_filled(&mut t, false));
    assert_eq!(t, info(1, 50, true));
    assert!(number_filled(&mut t, true));
    assert_eq!(t, info(3, 60, true));
    assert!(number_filled(&mut t, true));
    assert_eq!(t, info(5, 70, true));
}

#[test]
fn coord_set_keeps_first_occurrences_in_order() {
    let mut s = CoordSet::new();
    assert!(s.insert(Coords::new(1, 2)));
    assert!(s.insert(Coords::new(0, 0)));
    assert!(!s.insert(Coords::new(1, 2)));
    assert!(s.insert(Coords::new(-3, 7)));
    assert_eq!(s.len(), 3);
    assert_eq!(s.to_vec(), vec![Coords::new(1, 2), Coords::new(0, 0), Coords::new(-3, 7)]);
    assert!(s.contains(Coords::new(0, 0)));
    assert!(!s.contains(Coords::new(2, 1)));
    assert_eq!(s.get(2), Coords::new(-3, 7));
}

#[test]
fn mines_are_the_first_share_of_the_walls() {
    let cells: Vec<(i32, i32)> = (0..20).map(|i| (i, 2 * i)).collect();
    let walls = set_of(&cells);
    for (percent, count) in [(0u32, 0usize), (50, 10), (60, 12), (49, 9), (4, 0), (5, 1), (99, 19), (100, 20)] {
        let mines = sample_mines(&walls, percent);
        assert_eq!(mines.len(), count);
        assert_eq!(mines.to_vec(), walls.to_vec()[..count].to_vec());
    }
    let seven = set_of(&cells[..7]);
    assert_eq!(sample_mines(&seven, 50).len(), 3);
}

#[test]
fn there_are_never_more_mines_than_walls() {
    let cells: Vec<(i32, i32)> = (0..10).map(|i| (i, i)).collect();
    let walls = set_of(&cells);
    assert_eq!(sample_mines(&walls, 110).len(), 10);
    assert_eq!(sample_mines(&walls, u32::MAX).len(), 10);
    assert_eq!(sample_mines(&CoordSet::new(), 50).len(), 0);
}

#[test]
fn adjacent_mines_are_counted() {
    let mines = set_of(&[(4, 4), (5, 6), (6, 5), (7, 7), (5, 5), (3, 5)]);
    assert_eq!(count_adjacent_mines(Coords::new(5, 5), &mines), 3);
    assert_eq!(count_adjacent_mines(Coords::new(6, 6), &mines), 4);
    assert_eq!(count_adjacent_mines(Coords::new(0, 0), &mines), 0);
    let all = set_of(&[(0, 1), (1, 1), (1, 0), (1, -1), (0, -1), (-1, -1), (-1, 0), (-1, 1)]);
    assert_eq!(count_adjacent_mines(Coords::new(0, 0), &all), 8);
}

#[test]
fn battlement_walls_are_odd_inner_cells_then_the_outer_ring() {
    let walls = collect_battlement_walls(Coords::new(10, 10), 1).to_vec();
    assert_eq!(walls.len(), 20);
    assert_eq!(
        walls[..4].to_vec(),
        vec![Coords::new(9, 10), Coords::new(10, 9), Coords::new(10, 11), Coords::new(11, 10)]
    );
    assert_eq!(walls[4..].to_vec(), Coords::new(10, 10).get_ring_coords(2));
}

#[test]
fn edits_of_single_tiles() {
    let none = CoordSet::new();
    let wall = Tile { tile_state: TileState::Wall, number: 4, x: 2, y: 2 };
    let floor = Tile { tile_state: TileState::Floor, number: 4, x: 2, y: 2 };
    let tower = Tile { tile_state: TileState::Tower, number: 4, x: 2, y: 2 };
    let cleared = Tile { tile_state: TileState::Floor, number: 0, x: 2, y: 2 };
    assert_eq!(apply_edit(RingEdit::Clear, wall, &none), cleared);
    assert_eq!(apply_edit(RingEdit::Clear, tower, &none), tower);
    assert_eq!(apply_edit(RingEdit::ResetNumber, floor, &none), cleared);
    assert_eq!(apply_edit(RingEdit::ResetNumber, wall, &none), wall);
    assert_eq!(apply_edit(RingEdit::OpenWall, wall, &none), floor);
    assert_eq!(apply_edit(RingEdit::OpenWall, tower, &none), tower);
    assert_eq!(apply_edit(RingEdit::OpenFloor, wall, &none), floor);
    assert_eq!(apply_edit(RingEdit::OpenFloor, tower, &none), tower);
    let mines = set_of(&[(1, 1), (3, 2), (9, 9)]);
    assert_eq!(
        apply_edit(RingEdit::Count, wall, &mines),
        Tile { tile_state: TileState::Floor, number: 2, x: 2, y: 2 }
    );
    assert_eq!(apply_edit(RingEdit::Count, tower, &mines), tower);
    let odd = Tile { tile_state: TileState::Wall, number: 4, x: 2, y: 3 };
    assert_eq!(apply_edit(RingEdit::Count, odd, &mines), odd);
}

#[test]
fn editing_a_ring_touches_only_that_ring() {
    let mut grid = Grid::new();
    edit_ring(&mut grid, Coords::new(10, 10), 2, RingEdit::Clear, &CoordSet::new());
    for t in &grid.tiles {
        let on = cheb(t.x as i64, t.y as i64, 10, 10) == 2;
        assert_eq!(t.tile_state, if on { TileState::Floor } else { TileState::Wall });
    }
}

#[test]
fn first_expansion_opens_the_centre() {
    let mut grid = Grid::new();
    let mines = expand_floor(&mut grid, &TerritoryInfo::new()).to_vec();
    assert_eq!(tile(&grid, 10, 10).tile_state, TileState::Floor);
    assert_eq!(tile(&grid, 10, 10).number, 0);
    assert_eq!(
        mines,
        vec![
            Coords::new(9, 10),
            Coords::new(10, 9),
            Coords::new(10, 11),
            Coords::new(11, 10),
            Coords::new(8, 8),
            Coords::new(8, 9),
            Coords::new(8, 10),
            Coords::new(8, 11),
            Coords::new(8, 12),
            Coords::new(9, 8),
        ]
    );
    assert_eq!(tile(&grid, 9, 9).number, 6);
    assert_eq!(tile(&grid, 9, 11).number, 5);
    assert_eq!(tile(&grid, 11, 9).number, 2);
    assert_eq!(tile(&grid, 11, 11).number, 2);
    for t in &grid.tiles {
        let d = cheb(t.x as i64, t.y as i64, 10, 10);
        let floor = d == 0 || (d == 1 && (t.x + t.y) % 2 == 0);
        assert_eq!(t.tile_state, if floor { TileState::Floor } else { TileState::Wall });
        if !floor {
            assert_eq!(t.number, 0);
        }
    }
}

#[test]
fn second_expansion_numbers_the_even_cells_of_the_new_ring() {
    let mut grid = Grid::new();
    let mut territory = TerritoryInfo::new();
    expand_floor(&mut grid, &territory);
    assert!(number_filled(&mut territory, true));
    let mines = expand_floor(&mut grid, &territory).to_vec();
    assert_eq!(mines.len(), 26);
    for m in &mines {
        let d = cheb(m.x as i64, m.y as i64, 10, 10);
        assert!(d == 4 || (d == 3 && (m.x + m.y) % 2 != 0));
    }
    for t in &grid.tiles {
        let d = cheb(t.x as i64, t.y as i64, 10, 10);
        if d <= 2 {
            assert_eq!(t.tile_state, TileState::Floor);
            assert_eq!(t.number, 0);
        } else if d == 3 && (t.x + t.y) % 2 == 0 {
            assert_eq!(t.tile_state, TileState::Floor);
            assert_eq!(t.number, mines_around(&mines, t.x, t.y));
        } else {
            assert_eq!(t.tile_state, TileState::Wall);
            assert_eq!(t.number, 0);
        }
    }
}

#[test]
fn expansion_leaves_towers_alone() {
    for battlements in [true, false] {
        let mut grid = Grid::new();
        expand_floor(&mut grid, &info(1, 50, battlements));
        let spots = [(8usize, 9usize), (9, 10), (10, 10), (13, 13), (7, 10), (12, 8)];
        for (k, (x, y)) in spots.iter().enumerate() {
            grid.tiles[x * 21 + y].tile_state = TileState::Tower;
            grid.tiles[x * 21 + y].number = k + 1;
        }
        expand_floor(&mut grid, &info(3, 60, battlements));
        for (k, (x, y)) in spots.iter().enumerate() {
            assert_eq!(
                *tile(&grid, *x, *y),
                Tile { tile_state: TileState::Tower, number: k + 1, x: *x, y: *y }
            );
        }
    }
}

#[test]
fn no_walls_no_mines() {
    let mut grid = Grid::new();
    let mines = expand_floor(&mut grid, &info(1, 0, true));
    assert_eq!(mines.len(), 0);
    for (x, y) in [(9, 9), (9, 11), (11, 9), (11, 11), (10, 10)] {
        assert_eq!(*tile(&grid, x, y), Tile { tile_state: TileState::Floor, number: 0, x, y });
    }
    let mut open = Grid::new();
    for t in open.tiles.iter_mut() {
        t.tile_state = TileState::Floor;
    }
    let mines = expand_floor(&mut open, &info(3, 100, false));
    assert_eq!(mines.len(), 0);
    for t in &open.tiles {
        assert_eq!(t.number, 0);
    }
}

#[test]
fn expansion_beyond_the_grid() {
    let mut grid = Grid::new();
    let before = grid.tiles.clone();
    let mines = expand_floor(&mut grid, &info(13, 100, true));
    assert_eq!(mines.len(), 52 + 112);
    for (t, b) in grid.tiles.iter().zip(before.iter()) {
        let d = cheb(t.x as i64, t.y as i64, 10, 10);
        if d == 11 || d == 12 {
            assert_eq!(t.tile_state, TileState::Floor);
        } else {
            assert_eq!(t, b);
        }
    }
}

#[test]
fn brute_force_walls_come_from_around_the_ring() {
    let mut grid = Grid::new();
    edit_ring(&mut grid, Coords::new(10, 10), 0, RingEdit::Clear, &CoordSet::new());
    edit_ring(&mut grid, Coords::new(10, 10), 1, RingEdit::OpenFloor, &CoordSet::new());
    let walls = collect_brute_walls(&grid, Coords::new(10, 10), 1).to_vec();
    assert_eq!(walls.len(), 16);
    assert_eq!(
        walls[..5].to_vec(),
        vec![
            Coords::new(10, 8),
            Coords::new(9, 8),
            Coords::new(8, 8),
            Coords::new(8, 9),
            Coords::new(8, 10),
        ]
    );
    for w in &walls {
        assert_eq!(cheb(w.x as i64, w.y as i64, 10, 10), 2);
    }
}

#[test]
fn brute_force_skips_ring_cells_in_the_first_row_and_column() {
    let grid = Grid::new();
    let walls = collect_brute_walls(&grid, Coords::new(1, 1), 1).to_vec();
    for w in &walls {
        assert!(w.x >= 0 && w.y >= 0);
    }
    assert!(walls.contains(&Coords::new(3, 3)));
    assert!(walls.contains(&Coords::new(0, 3)));
    assert!(!walls.contains(&Coords::new(0, 0)));
    assert_eq!(walls.len(), 15);
    let expect: Vec<Coords> = {
        let mut s = CoordSet::new();
        for c in Coords::new(1, 1).get_ring_coords(1) {
            if c.x > 0 && c.y > 0 {
                for n in c.get_neighbour_coords() {
                    if n.x >= 0 && n.y >= 0 {
                        s.insert(n);
                    }
                }
            }
        }
        s.to_vec()
    };
    assert_eq!(walls, expect);
}

#[test]
fn brute_force_expansion() {
    let mut grid = Grid::new();
    let mines = expand_floor(&mut grid, &info(1, 50, false)).to_vec();
    assert_eq!(mines.len(), 8);
    for t in &grid.tiles {
        let d = cheb(t.x as i64, t.y as i64, 10, 10);
        if d <= 1 {
            assert_eq!(t.tile_state, TileState::Floor);
            assert_eq!(t.number, mines_around(&mines, t.x, t.y));
        } else {
            assert_eq!(t.tile_state, TileState::Wall);
            assert_eq!(t.number, 0);
        }
    }
    let before = grid.tiles.clone();
    let mines = expand_floor(&mut grid, &info(3, 60, false)).to_vec();
    assert_eq!(mines.len(), 19);
    for (t, b) in grid.tiles.iter().zip(before.iter()) {
        let d = cheb(t.x as i64, t.y as i64, 10, 10);
        if d <= 3 {
            assert_eq!(t.tile_state, TileState::Floor);
        } else {
            assert_eq!(t.tile_state, TileState::Wall);
        }
        let base = if d == 1 { 0 } else { b.number };
        let expect = if d <= 3 { base + mines_around(&mines, t.x, t.y) } else { base };
        assert_eq!(t.number, expect);
    }
}

#[test]
fn mine_counts_are_added_to_floor_tiles_only() {
    let mut grid = Grid::new();
    grid.tiles[5 * 21 + 5].tile_state = TileState::Floor;
    grid.tiles[5 * 21 + 5].number = 3;
    grid.tiles[6 * 21 + 6].tile_state = TileState::Tower;
    grid.tiles[0].tile_state = TileState::Floor;
    let mines = set_of(&[(4, 4), (5, 6), (6, 7), (1, 1), (0, 1)]);
    add_mine_counts(&mut grid, &mines);
    assert_eq!(tile(&grid, 5, 5).number, 5);
    assert_eq!(tile(&grid, 6, 6).number, 0);
    assert_eq!(tile(&grid, 0, 0).number, 2);
    assert_eq!(tile(&grid, 4, 5).number, 0);
}

#[test]
fn a_new_tower_lowers_the_numbers_around_it() {
    let mut grid = Grid::new();
    for (x, y, n) in [(5usize, 5usize, 2usize), (5, 6, 1), (6, 6, 0), (7, 7, 3), (7, 4, 1)] {
        grid.tiles[x * 21 + y].tile_state = TileState::Floor;
        grid.tiles[x * 21 + y].number = n;
    }
    grid.tiles[7 * 21 + 5].number = 4;
    grid.tiles[7 * 21 + 6].tile_state = TileState::Tower;
    grid.tiles[7 * 21 + 6].number = 2;
    let before = grid.tiles.clone();
    let filled = decrement_numbers(&mut grid, 6, 5);
    assert_eq!(filled, 2);
    assert_eq!(tile(&grid, 5, 5).number, 1);
    assert_eq!(tile(&grid, 5, 6).number, 0);
    assert_eq!(tile(&grid, 6, 6).number, 0);
    assert_eq!(tile(&grid, 7, 4).number, 0);
    assert_eq!(tile(&grid, 7, 7).number, 3);
    assert_eq!(tile(&grid, 7, 5).number, 4);
    assert_eq!(tile(&grid, 7, 6).number, 2);
    for (t, b) in grid.tiles.iter().zip(before.iter()) {
        assert!(t.number <= b.number);
        assert_eq!(t.tile_state, b.tile_state);
    }
    assert_eq!(decrement_numbers(&mut grid, 6, 5), 1);
    assert_eq!(tile(&grid, 5, 5).number, 0);
    assert_eq!(decrement_numbers(&mut grid, 6, 5), 0);
}

#[test]
fn decrement_at_the_corner() {
    let mut grid = Grid::new();
    grid.tiles[1].tile_state = TileState::Floor;
    grid.tiles[1].number = 1;
    assert_eq!(decrement_numbers(&mut grid, 0, 0), 1);
    assert_eq!(grid.tiles[1].number, 0);
    assert_eq!(decrement_numbers(&mut grid, 30, 30), 0);
}

#[test]
fn castle_takes_damage_down_to_zero() {
    let mut c = Castle { health: 100, money: 100 };
    c.take_damage(1);
    assert_eq!(c, Castle { health: 99, money: 100 });
    c.take_damage(99);
    assert_eq!(c, Castle { health: 0, money: 100 });
    let mut c = Castle { health: 5, money: 1 };
    c.take_damage(70);
    assert_eq!(c, Castle { health: 0, money: 1 });
}
