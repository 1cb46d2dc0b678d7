use minesweeper_td::castle::Castle;
use minesweeper_td::director::{
    pincer_split, upgrade_director, wave_layout, SpawnInfo, SpawnSlot, SpawnStrat,
};
use minesweeper_td::enemy::{tick_enemy, Enemy};
use minesweeper_td::grid::{Grid, PlaceError, TileInfo, TileState};
use minesweeper_td::intercept::{choose_root, intercept_case, InterceptCase, RootSigns, Sign};
use minesweeper_td::tower::{has_floor_nearby, spawn_tower, SpawnError, TowerPlacedEvent};

fn grid_with_floor_at(x: usize, y: usize) -> Grid {
    let mut grid = Grid::new();
    grid.tiles[x * 21 + y].tile_state = TileState::Floor;
    grid
}

#[test]
fn floor_nearby_looks_at_the_eight_tiles_around() {
    let grid = grid_with_floor_at(10, 10);
    for x in 8..13usize {
        for y in 8..13usize {
            let next = x.abs_diff(10).max(y.abs_diff(10)) == 1;
            assert_eq!(has_floor_nearby(&grid, x, y), next);
        }
    }
    let corner = grid_with_floor_at(0, 0);
    assert!(has_floor_nearby(&corner, 1, 1));
    assert!(!has_floor_nearby(&corner, 0, 0));
    assert!(!has_floor_nearby(&corner, 20, 20));
}

#[test]
fn a_tower_is_built_on_a_wall_next_to_floor() {
    let mut grid = grid_with_floor_at(10, 10);
    let mut castle = Castle { health: 100, money: 100 };
    let spot = grid.get_xy(10, 11).unwrap();
    let r = spawn_tower(&mut grid, &mut castle, spot, 15);
    assert_eq!(r, Ok(TowerPlacedEvent { x: 10, y: 11 }));
    assert_eq!(castle, Castle { health: 100, money: 85 });
    assert_eq!(grid.tiles[spot.index].tile_state, TileState::Tower);
    let towers = grid.tiles.iter().filter(|t| t.tile_state == TileState::Tower).count();
    assert_eq!(towers, 1);
}

#[test]
fn a_second_tower_on_the_same_tile_is_refused() {
    let mut grid = grid_with_floor_at(10, 10);
    let mut castle = Castle { health: 100, money: 100 };
    let spot = grid.get_xy(9, 9).unwrap();
    assert!(spawn_tower(&mut grid, &mut castle, spot, 10).is_ok());
    let tiles = grid.tiles.clone();
    let r = spawn_tower(&mut grid, &mut castle, spot, 10);
    assert_eq!(r, Err(SpawnError::Place(PlaceError::TowerAlready)));
    assert_eq!(grid.tiles, tiles);
    assert_eq!(castle.money, 90);
}

#[test]
fn no_tower_on_floor() {
    let mut grid = grid_with_floor_at(10, 10);
    grid.tiles[10 * 21 + 11].tile_state = TileState::Floor;
    let mut castle = Castle { health: 100, money: 100 };
    let r = spawn_tower(&mut grid, &mut castle, TileInfo { index: 10 * 21 + 11 }, 10);
    assert_eq!(r, Err(SpawnError::Place(PlaceError::Floor)));
    assert_eq!(castle.money, 100);
    assert_eq!(grid.tiles[10 * 21 + 11].tile_state, TileState::Floor);
}

#[test]
fn no_tower_away_from_floor() {
    let mut grid = grid_with_floor_at(10, 10);
    let mut castle = Castle { health: 100, money: 100 };
    let spot = grid.get_xy(10, 12).unwrap();
    let r = spawn_tower(&mut grid, &mut castle, spot, 10);
    assert_eq!(r, Err(SpawnError::NoFloorNearby));
    assert_eq!(grid.tiles[spot.index].tile_state, TileState::Wall);
    assert_eq!(castle.money, 100);
}

#[test]
fn no_tower_without_money() {
    let mut grid = grid_with_floor_at(10, 10);
    let mut castle = Castle { health: 100, money: 9 };
    let spot = grid.get_xy(11, 11).unwrap();
    assert_eq!(spawn_tower(&mut grid, &mut castle, spot, 10), Err(SpawnError::TooExpensive));
    assert_eq!(grid.tiles[spot.index].tile_state, TileState::Wall);
    assert_eq!(castle.money, 9);
    assert!(spawn_tower(&mut grid, &mut castle, spot, 9).is_ok());
    assert_eq!(castle.money, 0);
}

#[test]
fn missing_floor_is_reported_before_missing_money() {
    let mut grid = Grid::new();
    let mut castle = Castle { health: 100, money: 0 };
    let r = spawn_tower(&mut grid, &mut castle, TileInfo { index: 0 }, 10);
    assert_eq!(r, Err(SpawnError::NoFloorNearby));
}

#[test]
fn enemy_takes_damage_down_to_zero() {
    let mut e = Enemy::new(5);
    e.take_damage(2);
    assert_eq!(e.health, 3);
    e.take_damage(3);
    assert_eq!(e.health, 0);
    let mut e = Enemy::new(5);
    e.take_damage(6);
    assert_eq!(e.health, 0);
}

#[test]
fn a_dead_enemy_drops_a_coin() {
    let mut castle = Castle { health: 10, money: 3 };
    assert!(!tick_enemy(&Enemy::new(1), &mut castle));
    assert_eq!(castle.money, 3);
    assert!(tick_enemy(&Enemy::new(0), &mut castle));
    assert_eq!(castle, Castle { health: 10, money: 4 });
}

#[test]
fn director_starts_gently() {
    let s = SpawnInfo::new();
    assert_eq!(
        s,
        SpawnInfo {
            duration: 10,
            batch_size: 5,
            difficulty: 0,
            enemy_health: 5,
            next_strat: SpawnStrat::Spread,
        }
    );
}

#[test]
fn each_roll_has_its_formation() {
    for (roll, strat) in [
        (0u32, SpawnStrat::Burst),
        (1, SpawnStrat::Spread),
        (2, SpawnStrat::Line),
        (3, SpawnStrat::Pincer),
        (17, SpawnStrat::Pincer),
    ] {
        let mut s = SpawnInfo::new();
        s.difficulty = 3;
        assert_eq!(s.next_wave(roll), 8);
        assert_eq!(
            s,
            SpawnInfo {
                duration: 10,
                batch_size: 8,
                difficulty: 3,
                enemy_health: 5,
                next_strat: strat,
            }
        );
    }
}

#[test]
fn bigger_waves_have_tougher_enemies() {
    let mut s = SpawnInfo::new();
    s.difficulty = 5;
    assert_eq!(s.next_wave(0), 10);
    assert_eq!(s.enemy_health, 6);
    s.batch_size = 95;
    assert_eq!(s.next_wave(1), 100);
    assert_eq!(s.enemy_health, 15);
    s.batch_size = 24;
    assert_eq!(s.next_wave(2), 29);
    assert_eq!(s.enemy_health, 7);
}

#[test]
fn a_random_wave_grows_like_any_other() {
    for _ in 0..200 {
        let mut s = SpawnInfo::new();
        s.difficulty = 2;
        assert_eq!(s.spawn_tick(), 7);
        assert_eq!(s.batch_size, 7);
        assert_eq!(s.enemy_health, 5);
        assert_eq!(s.difficulty, 2);
        assert_eq!(s.duration, 10);
        assert!(matches!(
            s.next_strat,
            SpawnStrat::Burst | SpawnStrat::Spread | SpawnStrat::Line | SpawnStrat::Pincer
        ));
    }
}

#[test]
fn every_formation_is_drawn_sooner_or_later() {
    let mut seen = [false; 4];
    for _ in 0..2000 {
        let mut s = SpawnInfo::new();
        s.spawn_tick();
        match s.next_strat {
            SpawnStrat::Burst => seen[0] = true,
            SpawnStrat::Spread => seen[1] = true,
            SpawnStrat::Line => seen[2] = true,
            SpawnStrat::Pincer => seen[3] = true,
        }
    }
    assert_eq!(seen, [true; 4]);
}

#[test]
fn the_director_speeds_up_until_the_end_game() {
    let mut s = SpawnInfo::new();
    let mut seen = Vec::new();
    for _ in 0..7 {
        let endgame = upgrade_director(&mut s);
        seen.push((s.difficulty, s.duration, endgame));
    }
    assert_eq!(
        seen,
        vec![
            (1, 10, false),
            (2, 9, false),
            (3, 9, false),
            (4, 8, false),
            (5, 8, false),
            (6, 4, true),
            (7, 4, true),
        ]
    );
    assert_eq!(s.batch_size, 5);
}

#[test]
fn end_game_pace() {
    let mut s = SpawnInfo::new();
    s.start_endgame();
    assert_eq!(s.duration, 4);
    assert_eq!(s.batch_size, 5);
}

#[test]
fn a_pincer_is_split_in_two() {
    assert_eq!(pincer_split(10), (5, 5));
    assert_eq!(pincer_split(7), (3, 4));
    assert_eq!(pincer_split(1), (0, 1));
    assert_eq!(pincer_split(0), (0, 0));
    assert_eq!(pincer_split(u32::MAX), (u32::MAX / 2, u32::MAX / 2 + 1));
}

#[test]
fn intercept_cases_in_order() {
    assert_eq!(intercept_case(true, Sign::Negative, true), InterceptCase::Immediate);
    assert_eq!(intercept_case(true, Sign::Positive, false), InterceptCase::Immediate);
    assert_eq!(intercept_case(false, Sign::Zero, true), InterceptCase::Impossible);
    assert_eq!(intercept_case(false, Sign::Negative, false), InterceptCase::Impossible);
    assert_eq!(intercept_case(false, Sign::Positive, true), InterceptCase::Direct);
    assert_eq!(intercept_case(false, Sign::Positive, false), InterceptCase::Solve);
}

#[test]
fn the_intercept_root_is_the_soonest_ahead() {
    assert_eq!(choose_root(RootSigns::No), None);
    assert_eq!(choose_root(RootSigns::More), None);
    assert_eq!(choose_root(RootSigns::One(Sign::Negative)), None);
    assert_eq!(choose_root(RootSigns::One(Sign::Zero)), Some(0));
    assert_eq!(choose_root(RootSigns::One(Sign::Positive)), Some(0));
    assert_eq!(choose_root(RootSigns::Two(Sign::Negative, Sign::Negative)), None);
    assert_eq!(choose_root(RootSigns::Two(Sign::Positive, Sign::Positive)), Some(0));
    assert_eq!(choose_root(RootSigns::Two(Sign::Negative, Sign::Positive)), Some(1));
    assert_eq!(choose_root(RootSigns::Two(Sign::Negative, Sign::Zero)), Some(1));
    assert_eq!(choose_root(RootSigns::Two(Sign::Zero, Sign::Positive)), Some(1));
    assert_eq!(choose_root(RootSigns::Two(Sign::Zero, Sign::Zero)), Some(1));
}

#[test]
fn every_formation_places_each_enemy() {
    for strat in [SpawnStrat::Spread, SpawnStrat::Burst, SpawnStrat::Pincer, SpawnStrat::Line] {
        for num in [0u32, 1, 2, 5, 10, 33] {
            assert_eq!(wave_layout(strat, num).len(), num as usize);
        }
    }
}

#[test]
fn formations_slot_by_slot() {
    assert_eq!(wave_layout(SpawnStrat::Spread, 3), vec![SpawnSlot::Scattered; 3]);
    assert_eq!(wave_layout(SpawnStrat::Burst, 2), vec![SpawnSlot::AtAnchor; 2]);
    assert_eq!(
        wave_layout(SpawnStrat::Pincer, 5),
        vec![
            SpawnSlot::AtAnchor,
            SpawnSlot::AtAnchor,
            SpawnSlot::Opposite,
            SpawnSlot::Opposite,
            SpawnSlot::Opposite,
        ]
    );
    assert_eq!(wave_layout(SpawnStrat::Pincer, 1), vec![SpawnSlot::Opposite]);
    assert_eq!(
        wave_layout(SpawnStrat::Line, 4),
        vec![SpawnSlot::Along(0), SpawnSlot::Along(1), SpawnSlot::Along(2), SpawnSlot::Along(3)]
    );
}
