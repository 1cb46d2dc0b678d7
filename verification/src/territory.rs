//! Territory expansion: which tiles open up, where the mines lie, and the
//! numbers the floor tiles show.

use vstd::prelude::*;
use crate::castle::TerritoryInfo;
use crate::coord_set::{collect_distinct, CoordSet};
use crate::grid::{
    lemma_ring_complete, neighbour_offset, Coords, Grid, Tile, TileState, GRID_HEIGHT, GRID_WIDTH,
};
use crate::ring::chebyshev;

verus! {

/// The coordinate of a tile.
pub open spec fn tile_coords(t: Tile) -> Coords {
    Coords { x: t.x as i32, y: t.y as i32 }
}

/// Whether the coordinate sum is even.
pub open spec fn is_even(c: Coords) -> bool {
    (c.x + c.y) % 2 == 0
}

/// How many of `cells` are in `mines`.
pub open spec fn count_members(cells: Seq<Coords>, mines: Seq<Coords>) -> nat
    decreases cells.len(),
{
    if cells.len() == 0 {
        0
    } else {
        count_members(cells.drop_last(), mines) + if mines.contains(cells.last()) {
            1nat
        } else {
            0nat
        }
    }
}

/// How many of the eight cells around `c` are mines.
pub open spec fn mine_adjacency(c: Coords, mines: Seq<Coords>) -> nat {
    count_members(c.ring(1), mines)
}

/// The cells of `cells` with an odd coordinate sum, in order.
pub open spec fn odd_cells(cells: Seq<Coords>) -> Seq<Coords>
    decreases cells.len(),
{
    if cells.len() == 0 {
        Seq::empty()
    } else if is_even(cells.last()) {
        odd_cells(cells.drop_last())
    } else {
        odd_cells(cells.drop_last()).push(cells.last())
    }
}

/// How many mines are drawn from `walls` candidates at a density of
/// `bombs_percent` hundredths: the share rounded down, and never more than
/// there are candidates.
pub open spec fn mine_count(walls: nat, bombs_percent: nat) -> nat {
    let want = walls * bombs_percent / 100;
    if want < walls { want } else { walls }
}

/// The mines drawn from `walls`: its first `mine_count` candidates.
pub open spec fn sampled(walls: Seq<Coords>, bombs_percent: nat) -> Seq<Coords> {
    walls.take(mine_count(walls.len(), bombs_percent) as int)
}

/// The number of mines is the candidates' share rounded down whenever the
/// density is at most one hundred hundredths, and never exceeds the number
/// of candidates.
pub proof fn lemma_mine_count_bound(walls: nat, bombs_percent: nat)
    ensures
        mine_count(walls, bombs_percent) <= walls,
        bombs_percent <= 100 ==> mine_count(walls, bombs_percent) == walls * bombs_percent / 100,
{
    if bombs_percent <= 100 {
        assert(walls * bombs_percent <= walls * 100) by (nonlinear_arith)
            requires
                bombs_percent <= 100,
        ;
    }
}

/// Draws the mines from the wall candidates: the first `mine_count` of them
/// in insertion order.
pub fn sample_mines(walls: &CoordSet, bombs_percent: u32) -> (mines: CoordSet)
    requires
        walls.wf(),
    ensures
        mines@ == sampled(walls@, bombs_percent as nat),
        mines.wf(),
{
    let len: usize = walls.len();
    assert(len * bombs_percent <= u128::MAX) by (nonlinear_arith)
        requires
            len <= usize::MAX,
            bombs_percent <= u32::MAX,
            usize::MAX <= u64::MAX,
    ;
    let number_total: u128 = (len as u128) * (bombs_percent as u128) / 100;
    let mut mines = CoordSet::new();
    let mut i: usize = 0;
    while i < len
        invariant_except_break
            mines@ == walls@.take(i as int),
        invariant
            i <= len,
            i <= number_total,
            len == walls@.len(),
            walls.wf(),
            mines.wf(),
            number_total == len * bombs_percent / 100,
        ensures
            mines@ == sampled(walls@, bombs_percent as nat),
        decreases len - i,
    {
        if i as u128 >= number_total {
            proof {
                assert(mine_count(walls@.len(), bombs_percent as nat) == i);
            }
            break;
        }
        let c = walls.get(i);
        proof {
            assert(!walls@.take(i as int).contains(c));
            assert(walls@.take(i + 1) =~= walls@.take(i as int).push(c));
        }
        mines.insert(c);
        i = i + 1;
    }
    mines
}

/// Counts the mines among the eight cells around `c`.
pub fn count_adjacent_mines(c: Coords, mines: &CoordSet) -> (n: usize)
    requires
        c.has_room(1),
    ensures
        n == mine_adjacency(c, mines@),
        n <= 8,
{
    let around = c.get_ring_coords(1);
    let mut n: usize = 0;
    let mut k: usize = 0;
    while k < around.len()
        invariant
            around@ == c.ring(1),
            around@.len() == 8,
            k <= around@.len(),
            n <= k,
            n == count_members(around@.take(k as int), mines@),
        decreases around@.len() - k,
    {
        proof {
            assert(around@.take(k + 1).drop_last() =~= around@.take(k as int));
        }
        if mines.contains(around[k]) {
            n = n + 1;
        }
        k = k + 1;
    }
    proof {
        assert(around@.take(8) =~= around@);
    }
    n
}

/// The ways an expansion pass rewrites the tiles of one ring.
#[derive(Copy, Clone, Debug, PartialEq, Eq, Structural)]
pub enum RingEdit {
    /// Everything but a tower becomes floor with number 0.
    Clear,
    /// A floor tile gets number 0.
    ResetNumber,
    /// A wall becomes floor.
    OpenWall,
    /// Everything but a tower becomes floor; numbers stay.
    OpenFloor,
    /// Everything but a tower, on a cell with an even coordinate sum, becomes
    /// floor and shows how many mines lie around it.
    Count,
}

/// What `edit` makes of the tile `t`, given the mines.
pub open spec fn edit_tile(edit: RingEdit, t: Tile, mines: Seq<Coords>) -> Tile {
    match edit {
        RingEdit::Clear => if t.tile_state != TileState::Tower {
            Tile { tile_state: TileState::Floor, number: 0, ..t }
        } else {
            t
        },
        RingEdit::ResetNumber => if t.tile_state == TileState::Floor {
            Tile { number: 0, ..t }
        } else {
            t
        },
        RingEdit::OpenWall => if t.tile_state == TileState::Wall {
            Tile { tile_state: TileState::Floor, ..t }
        } else {
            t
        },
        RingEdit::OpenFloor => if t.tile_state != TileState::Tower {
            Tile { tile_state: TileState::Floor, ..t }
        } else {
            t
        },
        RingEdit::Count => if t.tile_state != TileState::Tower && is_even(tile_coords(t)) {
            Tile {
                tile_state: TileState::Floor,
                number: mine_adjacency(tile_coords(t), mines) as usize,
                ..t
            }
        } else {
            t
        },
    }
}

/// The tiles after `edit` has been applied to every tile at Chebyshev
/// distance `radius` from `center`; all other tiles are as before.
pub open spec fn ring_edited(
    tiles: Seq<Tile>,
    center: Coords,
    radius: int,
    edit: RingEdit,
    mines: Seq<Coords>,
) -> Seq<Tile> {
    Seq::new(
        tiles.len(),
        |i: int|
            if chebyshev(
                tiles[i].x as int,
                tiles[i].y as int,
                center.x as int,
                center.y as int,
            ) == radius {
                edit_tile(edit, tiles[i], mines)
            } else {
                tiles[i]
            },
    )
}

/// Applies `edit` to one tile.
pub fn apply_edit(edit: RingEdit, t: Tile, mines: &CoordSet) -> (out: Tile)
    requires
        t.x < GRID_WIDTH,
        t.y < GRID_HEIGHT,
    ensures
        out == edit_tile(edit, t, mines@),
{
    let mut out = t;
    match edit {
        RingEdit::Clear => {
            if t.tile_state != TileState::Tower {
                out.number = 0;
                out.tile_state = TileState::Floor;
            }
        },
        RingEdit::ResetNumber => {
            if t.tile_state == TileState::Floor {
                out.number = 0;
            }
        },
        RingEdit::OpenWall => {
            if t.tile_state == TileState::Wall {
                out.tile_state = TileState::Floor;
            }
        },
        RingEdit::OpenFloor => {
            if t.tile_state != TileState::Tower {
                out.tile_state = TileState::Floor;
            }
        },
        RingEdit::Count => {
            if t.tile_state != TileState::Tower && (t.x + t.y) % 2 == 0 {
                let c = Coords::new(t.x as i32, t.y as i32);
                out.number = count_adjacent_mines(c, mines);
                out.tile_state = TileState::Floor;
            }
        },
    }
    out
}

/// Applies `edit` to every tile on the ring of radius `radius` around
/// `center`, leaving all other tiles alone.
pub fn edit_ring(grid: &mut Grid, center: Coords, radius: i32, edit: RingEdit, mines: &CoordSet)
    requires
        old(grid).wf(),
        radius >= 0,
        center.has_room(radius as int),
    ensures
        final(grid).wf(),
        final(grid).tiles@ == ring_edited(old(grid).tiles@, center, radius as int, edit, mines@),
{
    let ring = center.get_ring_coords(radius);
    let ghost before = grid.tiles@;
    let mut k: usize = 0;
    while k < ring.len()
        invariant
            k <= ring@.len(),
            ring@ == center.ring(radius as int),
            grid.wf(),
            before.len() == grid.tiles@.len(),
            forall|i: int|
                0 <= i < before.len() ==> (#[trigger] before[i]).x == i / (GRID_HEIGHT as int)
                    && before[i].y == i % (GRID_HEIGHT as int),
            forall|i: int|
                0 <= i < before.len() ==> #[trigger] grid.tiles@[i] == if ring@.take(
                    k as int,
                ).contains(tile_coords(before[i])) {
                    edit_tile(edit, before[i], mines@)
                } else {
                    before[i]
                },
        decreases ring@.len() - k,
    {
        let c = ring[k];
        let ghost visited = ring@.take(k as int);
        proof {
            assert(ring@.take(k + 1) =~= visited.push(c));
            assert forall|d: Coords| ring@.take(k + 1).contains(d) <==> (visited.contains(d) || d
                == c) by {
                if visited.contains(d) {
                    let j = choose|j: int| 0 <= j < visited.len() && visited[j] == d;
                    assert(ring@.take(k + 1)[j] == d);
                }
                if d == c {
                    assert(ring@.take(k + 1)[k as int] == c);
                }
            }
        }
        if let Some(info) = grid.get_coords(c) {
            let t = grid.tiles[info.index];
            let t2 = apply_edit(edit, t, mines);
            let ghost mid = grid.tiles@;
            grid.tiles.set(info.index, t2);
            proof {
                assert forall|i: int| 0 <= i < before.len() implies #[trigger] grid.tiles@[i] == if ring@.take(
                    k + 1,
                ).contains(tile_coords(before[i])) {
                    edit_tile(edit, before[i], mines@)
                } else {
                    before[i]
                } by {
                    assert(mid[i] == if visited.contains(tile_coords(before[i])) {
                        edit_tile(edit, before[i], mines@)
                    } else {
                        before[i]
                    });
                }
            }
        } else {
            proof {
                assert forall|i: int| 0 <= i < before.len() implies tile_coords(before[i]) != c by {}
            }
        }
        k = k + 1;
    }
    proof {
        assert(ring@.take(ring@.len() as int) =~= ring@);
        assert forall|i: int| 0 <= i < before.len() implies grid.tiles@[i] == ring_edited(
            before,
            center,
            radius as int,
            edit,
            mines@,
        )[i] by {
            lemma_ring_complete(center, radius as int, tile_coords(before[i]));
        }
        assert(grid.tiles@ =~= ring_edited(before, center, radius as int, edit, mines@));
    }
}

/// The wall candidates of the battlements style: the odd cells of the ring
/// of radius `radius`, then the whole ring of radius `radius + 1`.
pub open spec fn battlement_walls(center: Coords, radius: int) -> Seq<Coords> {
    collect_distinct(
        collect_distinct(Seq::empty(), odd_cells(center.ring(radius))),
        center.ring(radius + 1),
    )
}

/// Collects the wall candidates of the battlements style.
pub fn collect_battlement_walls(center: Coords, radius: i32) -> (walls: CoordSet)
    requires
        radius >= 0,
        center.has_room(radius + 1),
    ensures
        walls@ == battlement_walls(center, radius as int),
        walls.wf(),
{
    let inner = center.get_ring_coords(radius);
    let outer = center.get_ring_coords(radius + 1);
    let mut walls = CoordSet::new();
    let mut k: usize = 0;
    while k < inner.len()
        invariant
            k <= inner@.len(),
            walls.wf(),
            walls@ == collect_distinct(Seq::empty(), odd_cells(inner@.take(k as int))),
        decreases inner@.len() - k,
    {
        let c = inner[k];
        proof {
            assert(inner@.take(k + 1).drop_last() =~= inner@.take(k as int));
            let odd = odd_cells(inner@.take(k as int));
            assert(odd.push(c).drop_last() =~= odd);
        }
        if (c.x as i64 + c.y as i64) % 2 != 0 {
            walls.insert(c);
        }
        k = k + 1;
    }
    proof {
        assert(inner@.take(inner@.len() as int) =~= inner@);
    }
    let ghost first = walls@;
    let mut k: usize = 0;
    while k < outer.len()
        invariant
            k <= outer@.len(),
            walls.wf(),
            walls@ == collect_distinct(first, outer@.take(k as int)),
        decreases outer@.len() - k,
    {
        proof {
            assert(outer@.take(k + 1).drop_last() =~= outer@.take(k as int));
        }
        walls.insert(outer[k]);
        k = k + 1;
    }
    proof {
        assert(outer@.take(outer@.len() as int) =~= outer@);
    }
    walls
}

/// Whether the grid holds a tile at `c`.
pub open spec fn on_grid(tiles: Seq<Tile>, c: Coords) -> bool {
    0 <= c.x < GRID_WIDTH && 0 <= c.y < GRID_HEIGHT && c.x * GRID_HEIGHT + c.y < tiles.len()
}

/// Whether the grid holds a wall tile at `c`.
pub open spec fn wall_at(tiles: Seq<Tile>, c: Coords) -> bool {
    on_grid(tiles, c) && tiles[c.x * GRID_HEIGHT + c.y].tile_state == TileState::Wall
}

/// The cells of `cells` that hold a wall tile, in order.
pub open spec fn wall_cells(tiles: Seq<Tile>, cells: Seq<Coords>) -> Seq<Coords>
    decreases cells.len(),
{
    if cells.len() == 0 {
        Seq::empty()
    } else if wall_at(tiles, cells.last()) {
        wall_cells(tiles, cells.drop_last()).push(cells.last())
    } else {
        wall_cells(tiles, cells.drop_last())
    }
}

/// The wall candidates of the brute-force style: for each of `cells` that
/// lies on the grid with both components positive, the walls among its
/// eight neighbours, each candidate kept at its first occurrence.
pub open spec fn brute_walls(tiles: Seq<Tile>, cells: Seq<Coords>) -> Seq<Coords>
    decreases cells.len(),
{
    if cells.len() == 0 {
        Seq::empty()
    } else {
        let found = brute_walls(tiles, cells.drop_last());
        let c = cells.last();
        if c.x > 0 && c.y > 0 && on_grid(tiles, c) {
            collect_distinct(found, wall_cells(tiles, c.neighbours()))
        } else {
            found
        }
    }
}

/// Collects the wall candidates of the brute-force style around the ring
/// of radius `radius`.
pub fn collect_brute_walls(grid: &Grid, center: Coords, radius: i32) -> (walls: CoordSet)
    requires
        radius >= 0,
        center.has_room(radius as int),
    ensures
        walls@ == brute_walls(grid.tiles@, center.ring(radius as int)),
        walls.wf(),
        forall|k: int| 0 <= k < walls@.len() ==> wall_at(grid.tiles@, #[trigger] walls@[k]),
{
    let ring = center.get_ring_coords(radius);
    let mut walls = CoordSet::new();
    let mut k: usize = 0;
    while k < ring.len()
        invariant
            k <= ring@.len(),
            walls.wf(),
            walls@ == brute_walls(grid.tiles@, ring@.take(k as int)),
            forall|q: int| 0 <= q < walls@.len() ==> wall_at(grid.tiles@, #[trigger] walls@[q]),
        decreases ring@.len() - k,
    {
        let c = ring[k];
        proof {
            assert(ring@.take(k + 1).drop_last() =~= ring@.take(k as int));
        }
        if c.x > 0 && c.y > 0 {
            if let Some(_info) = grid.get_coords(c) {
                let around = c.get_neighbour_coords();
                let ghost found = walls@;
                let mut j: usize = 0;
                while j < around.len()
                    invariant
                        j <= around@.len(),
                        walls.wf(),
                        forall|q: int|
                            0 <= q < walls@.len() ==> wall_at(grid.tiles@, #[trigger] walls@[q]),
                        walls@ == collect_distinct(
                            found,
                            wall_cells(grid.tiles@, around@.take(j as int)),
                        ),
                    decreases around@.len() - j,
                {
                    let wc = around[j];
                    proof {
                        assert(around@.take(j + 1).drop_last() =~= around@.take(j as int));
                        let seen = wall_cells(grid.tiles@, around@.take(j as int));
                        assert(seen.push(wc).drop_last() =~= seen);
                    }
                    if let Some(info2) = grid.get_coords(wc) {
                        if grid.tiles[info2.index].tile_state == TileState::Wall {
                            walls.insert(wc);
                        }
                    }
                    j = j + 1;
                }
                proof {
                    assert(around@.take(around@.len() as int) =~= around@);
                }
            }
        }
        k = k + 1;
    }
    proof {
        assert(ring@.take(ring@.len() as int) =~= ring@);
    }
    walls
}

/// The eight neighbours of `c` are exactly the cells at Chebyshev distance 1
/// from it, each listed once.
pub proof fn lemma_neighbours_complete(c: Coords, p: Coords)
    requires
        c.has_room(1),
    ensures
        c.neighbours().contains(p) <==> chebyshev(p.x as int, p.y as int, c.x as int, c.y as int)
            == 1,
        c.neighbours().no_duplicates(),
{
    let around = c.neighbours();
    let dx = p.x - c.x;
    let dy = p.y - c.y;
    if chebyshev(p.x as int, p.y as int, c.x as int, c.y as int) == 1 {
        let k: int = if dx == 0 && dy == 1 {
            0
        } else if dx == 1 && dy == 1 {
            1
        } else if dx == 1 && dy == 0 {
            2
        } else if dx == 1 && dy == -1 {
            3
        } else if dx == 0 && dy == -1 {
            4
        } else if dx == -1 && dy == -1 {
            5
        } else if dx == -1 && dy == 0 {
            6
        } else {
            7
        };
        assert(neighbour_offset(k) == (dx, dy));
        assert(around[k] == p);
    }
}

/// Adding a mine that was not there raises the count around `c` by one if
/// the mine is next to `c`, and leaves it alone otherwise.
pub proof fn lemma_adjacency_push(c: Coords, mines: Seq<Coords>, m: Coords)
    requires
        c.has_room(1),
        !mines.contains(m),
    ensures
        mine_adjacency(c, mines.push(m)) == mine_adjacency(c, mines) + if chebyshev(
            c.x as int,
            c.y as int,
            m.x as int,
            m.y as int,
        ) == 1 {
            1nat
        } else {
            0nat
        },
        mine_adjacency(c, mines) <= 8,
{
    let around = c.ring(1);
    let more = mines.push(m);
    lemma_ring_complete(c, 1, m);
    crate::grid::lemma_ring_distinct(c, 1);
    assert forall|d: Coords| more.contains(d) <==> (mines.contains(d) || d == m) by {
        if mines.contains(d) {
            let j = choose|j: int| 0 <= j < mines.len() && mines[j] == d;
            assert(more[j] == d);
        }
        if d == m {
            assert(more[mines.len() as int] == m);
        }
    }
    lemma_count_members_push(around, mines, m, 8);
    assert(around.take(8) =~= around);
}

/// The count within the first `n` of duplicate-free `cells` after adding a
/// mine that was not there.
proof fn lemma_count_members_push(cells: Seq<Coords>, mines: Seq<Coords>, m: Coords, n: int)
    requires
        0 <= n <= cells.len(),
        cells.no_duplicates(),
        forall|d: Coords| mines.push(m).contains(d) <==> (mines.contains(d) || d == m),
        !mines.contains(m),
    ensures
        count_members(cells.take(n), mines.push(m)) == count_members(cells.take(n), mines) + if cells.take(
            n,
        ).contains(m) {
            1nat
        } else {
            0nat
        },
        count_members(cells.take(n), mines) <= n,
    decreases n,
{
    if n > 0 {
        lemma_count_members_push(cells, mines, m, n - 1);
        assert(cells.take(n).drop_last() =~= cells.take(n - 1));
        let last = cells[n - 1];
        let shorter = cells.take(n - 1);
        let longer = cells.take(n);
        assert(longer.last() == last);
        if shorter.contains(m) {
            let j = choose|j: int| 0 <= j < shorter.len() && shorter[j] == m;
            assert(longer[j] == m);
            assert(cells[j] == m);
            assert(last != m);
        } else if last == m {
            assert(longer[n - 1] == m);
        } else {
            if longer.contains(m) {
                let j = choose|j: int| 0 <= j < longer.len() && longer[j] == m;
                assert(shorter[j] == m);
            }
        }
    }
}

/// The tiles after every floor tile's number has grown by the number of
/// mines around it.
pub open spec fn with_mine_counts(tiles: Seq<Tile>, mines: Seq<Coords>) -> Seq<Tile> {
    Seq::new(
        tiles.len(),
        |i: int|
            if tiles[i].tile_state == TileState::Floor {
                Tile {
                    number: (tiles[i].number + mine_adjacency(tile_coords(tiles[i]), mines)) as usize,
                    ..tiles[i]
                }
            } else {
                tiles[i]
            },
    )
}

/// For each mine, raises by one the number of every floor tile next to it.
pub fn add_mine_counts(grid: &mut Grid, mines: &CoordSet)
    requires
        old(grid).wf(),
        mines.wf(),
        forall|i: int| 0 <= i < old(grid).tiles@.len() ==> old(grid).tiles@[i].number <= usize::MAX - 8,
        forall|k: int| 0 <= k < mines@.len() ==> (#[trigger] mines@[k]).has_room(1),
    ensures
        final(grid).wf(),
        final(grid).tiles@ == with_mine_counts(old(grid).tiles@, mines@),
{
    let ghost before = grid.tiles@;
    proof {
        assert forall|i: int| 0 <= i < before.len() implies mine_adjacency(
            tile_coords(#[trigger] before[i]),
            mines@.take(0),
        ) == 0 by {
            lemma_count_members_none(tile_coords(before[i]).ring(1), mines@.take(0));
        }
        assert(grid.tiles@ =~= with_mine_counts(before, mines@.take(0)));
    }
    let mut mi: usize = 0;
    while mi < mines.len()
        invariant
            mi <= mines@.len(),
            mines.wf(),
            grid.wf(),
            before.len() == grid.tiles@.len(),
            forall|i: int| 0 <= i < before.len() ==> (#[trigger] before[i]).number <= usize::MAX - 8,
            forall|i: int|
                0 <= i < before.len() ==> (#[trigger] before[i]).x == i / (GRID_HEIGHT as int)
                    && before[i].y == i % (GRID_HEIGHT as int),
            forall|k: int| 0 <= k < mines@.len() ==> (#[trigger] mines@[k]).has_room(1),
            grid.tiles@ == with_mine_counts(before, mines@.take(mi as int)),
        decreases mines@.len() - mi,
    {
        let m = mines.get(mi);
        let around = m.get_neighbour_coords();
        let ghost counted = mines@.take(mi as int);
        let ghost start = grid.tiles@;
        proof {
            assert(mines@.take(mi + 1) =~= counted.push(m));
            assert(!counted.contains(m));
            assert forall|p: Coords| true implies (around@.contains(p) <==> chebyshev(
                p.x as int,
                p.y as int,
                m.x as int,
                m.y as int,
            ) == 1) && around@.no_duplicates() by {
                lemma_neighbours_complete(m, p);
            }
            assert forall|i: int| 0 <= i < before.len() implies mine_adjacency(
                tile_coords(#[trigger] before[i]),
                counted.push(m),
            ) == mine_adjacency(tile_coords(before[i]), counted) + if chebyshev(
                before[i].x as int,
                before[i].y as int,
                m.x as int,
                m.y as int,
            ) == 1 {
                1nat
            } else {
                0nat
            } && mine_adjacency(tile_coords(before[i]), counted.push(m)) <= 8 by {
                lemma_adjacency_push(tile_coords(before[i]), counted, m);
                lemma_adjacency_bound(tile_coords(before[i]), counted.push(m));
            }
        }
        let mut j: usize = 0;
        while j < around.len()
            invariant
                j <= around@.len(),
                around@.len() == 8,
                around@.no_duplicates(),
                grid.wf(),
                before.len() == grid.tiles@.len(),
                start.len() == before.len(),
                forall|i: int| 0 <= i < before.len() ==> (#[trigger] before[i]).number <= usize::MAX - 8,
                forall|i: int|
                    0 <= i < before.len() ==> (#[trigger] before[i]).x == i / (GRID_HEIGHT as int)
                        && before[i].y == i % (GRID_HEIGHT as int),
                start == with_mine_counts(before, counted),
                forall|i: int|
                    0 <= i < before.len() && around@.contains(tile_coords(#[trigger] before[i]))
                        ==> mine_adjacency(tile_coords(before[i]), counted) < 8,
                forall|i: int|
                    0 <= i < before.len() ==> #[trigger] grid.tiles@[i] == if start[i].tile_state
                        == TileState::Floor && around@.take(j as int).contains(
                        tile_coords(before[i]),
                    ) {
                        Tile { number: (start[i].number + 1) as usize, ..start[i] }
                    } else {
                        start[i]
                    },
            decreases around@.len() - j,
        {
            let c = around[j];
            let ghost visited = around@.take(j as int);
            proof {
                assert(around@.take(j + 1) =~= visited.push(c));
                assert(!visited.contains(c));
                assert forall|d: Coords| around@.take(j + 1).contains(d) <==> (visited.contains(d)
                    || d == c) by {
                    if visited.contains(d) {
                        let q = choose|q: int| 0 <= q < visited.len() && visited[q] == d;
                        assert(around@.take(j + 1)[q] == d);
                    }
                    if d == c {
                        assert(around@.take(j + 1)[j as int] == c);
                    }
                }
            }
            if let Some(info) = grid.get_coords(c) {
                let t = grid.tiles[info.index];
                proof {
                    assert(tile_coords(before[info.index as int]) == c);
                    assert(around@[j as int] == c);
                    assert(around@.contains(c));
                    assert(t == start[info.index as int]);
                }
                if t.tile_state == TileState::Floor {
                    let mut t2 = t;
                    t2.number = t.number + 1;
                    grid.tiles.set(info.index, t2);
                }
            } else {
                proof {
                    assert forall|i: int| 0 <= i < before.len() implies tile_coords(before[i])
                        != c by {}
                }
            }
            j = j + 1;
        }
        proof {
            assert(around@.take(8) =~= around@);
            assert(grid.tiles@ =~= with_mine_counts(before, counted.push(m)));
        }
        mi = mi + 1;
    }
    proof {
        assert(mines@.take(mines@.len() as int) =~= mines@);
    }
}

/// At most eight mines lie around a cell.
pub proof fn lemma_adjacency_bound(c: Coords, mines: Seq<Coords>)
    ensures
        mine_adjacency(c, mines) <= 8,
{
    lemma_count_members_bound(c.ring(1), mines);
}

/// Nothing is counted when there are no mines.
proof fn lemma_count_members_none(cells: Seq<Coords>, mines: Seq<Coords>)
    requires
        mines.len() == 0,
    ensures
        count_members(cells, mines) == 0,
    decreases cells.len(),
{
    if cells.len() > 0 {
        lemma_count_members_none(cells.drop_last(), mines);
    }
}

/// No more cells are counted than there are.
proof fn lemma_count_members_bound(cells: Seq<Coords>, mines: Seq<Coords>)
    ensures
        count_members(cells, mines) <= cells.len(),
    decreases cells.len(),
{
    if cells.len() > 0 {
        lemma_count_members_bound(cells.drop_last(), mines);
    }
}

/// The centre of the territory as a coordinate.
pub open spec fn territory_center(info: TerritoryInfo) -> Coords {
    Coords { x: info.x as i32, y: info.y as i32 }
}

/// The tiles once the bands of the previous expansion have been opened up
/// and, on the first expansion, the centre has become floor.
pub open spec fn cleared(tiles: Seq<Tile>, info: TerritoryInfo) -> Seq<Tile> {
    let center = territory_center(info);
    let r = info.radius as int;
    let none = Seq::<Coords>::empty();
    let first = if r == 1 {
        ring_edited(tiles, center, 0, RingEdit::Clear, none)
    } else {
        tiles
    };
    if r <= 2 {
        first
    } else if info.battlements_style {
        ring_edited(
            ring_edited(first, center, r - 2, RingEdit::Clear, none),
            center,
            r - 1,
            RingEdit::Clear,
            none,
        )
    } else {
        ring_edited(
            ring_edited(first, center, r - 2, RingEdit::ResetNumber, none),
            center,
            r - 1,
            RingEdit::OpenWall,
            none,
        )
    }
}

/// The tiles of the brute-force style once the new ring has become floor.
pub open spec fn opened(tiles: Seq<Tile>, info: TerritoryInfo) -> Seq<Tile> {
    ring_edited(
        cleared(tiles, info),
        territory_center(info),
        info.radius as int,
        RingEdit::OpenFloor,
        Seq::empty(),
    )
}

/// The mines of one expansion. In the battlements style they are drawn from
/// the odd cells of the new ring and the ring beyond it; in the brute-force
/// style from the walls around the new ring.
pub open spec fn expansion_mines(tiles: Seq<Tile>, info: TerritoryInfo) -> Seq<Coords> {
    let center = territory_center(info);
    let r = info.radius as int;
    if info.battlements_style {
        sampled(battlement_walls(center, r), info.bombs_percent as nat)
    } else {
        sampled(brute_walls(opened(tiles, info), center.ring(r)), info.bombs_percent as nat)
    }
}

/// The tiles after one expansion. In the battlements style the even cells
/// of the new ring become floor and show their mine count; in the
/// brute-force style the whole new ring becomes floor and every floor tile's
/// number grows by the mines around it.
pub open spec fn expanded(tiles: Seq<Tile>, info: TerritoryInfo) -> Seq<Tile> {
    let mines = expansion_mines(tiles, info);
    if info.battlements_style {
        ring_edited(
            cleared(tiles, info),
            territory_center(info),
            info.radius as int,
            RingEdit::Count,
            mines,
        )
    } else {
        with_mine_counts(opened(tiles, info), mines)
    }
}

/// An expansion leaves every tower as it was, state and number.
pub proof fn lemma_expansion_keeps_towers(tiles: Seq<Tile>, info: TerritoryInfo, i: int)
    requires
        0 <= i < tiles.len(),
        tiles[i].tile_state == TileState::Tower,
    ensures
        expanded(tiles, info).len() == tiles.len(),
        expanded(tiles, info)[i] == tiles[i],
{
}

/// One expansion pass over the grid; returns the mines it placed.
pub fn expand_floor(grid: &mut Grid, territory_info: &TerritoryInfo) -> (mines: CoordSet)
    requires
        old(grid).wf(),
        territory_info.radius >= 1,
        territory_info.x + territory_info.radius + 1 <= i32::MAX,
        territory_info.y + territory_info.radius + 1 <= i32::MAX,
        !territory_info.battlements_style ==> forall|i: int|
            0 <= i < old(grid).tiles@.len() ==> old(grid).tiles@[i].number <= usize::MAX - 8,
    ensures
        final(grid).wf(),
        final(grid).tiles@ == expanded(old(grid).tiles@, *territory_info),
        mines@ == expansion_mines(old(grid).tiles@, *territory_info),
        mines.wf(),
        forall|i: int|
            0 <= i < old(grid).tiles@.len() && old(grid).tiles@[i].tile_state == TileState::Tower
                ==> final(grid).tiles@[i] == old(grid).tiles@[i],
{
    let radius = territory_info.radius;
    let center = Coords::new(territory_info.x as i32, territory_info.y as i32);
    let none = CoordSet::new();
    let ghost before = grid.tiles@;
    if radius == 1 {
        edit_ring(grid, center, 0, RingEdit::Clear, &none);
    }
    if radius > 2 {
        if territory_info.battlements_style {
            edit_ring(grid, center, radius - 2, RingEdit::Clear, &none);
            edit_ring(grid, center, radius - 1, RingEdit::Clear, &none);
        } else {
            edit_ring(grid, center, radius - 2, RingEdit::ResetNumber, &none);
            edit_ring(grid, center, radius - 1, RingEdit::OpenWall, &none);
        }
    }
    assert(grid.tiles@ == cleared(before, *territory_info));
    if territory_info.battlements_style {
        let walls = collect_battlement_walls(center, radius);
        let mines = sample_mines(&walls, territory_info.bombs_percent);
        edit_ring(grid, center, radius, RingEdit::Count, &mines);
        mines
    } else {
        edit_ring(grid, center, radius, RingEdit::OpenFloor, &none);
        let walls = collect_brute_walls(grid, center, radius);
        let mines = sample_mines(&walls, territory_info.bombs_percent);
        add_mine_counts(grid, &mines);
        mines
    }
}

/// Whether `(tx, ty)` is among the first `k` neighbours of `(x, y)`.
pub open spec fn among_neighbours(k: int, x: int, y: int, tx: int, ty: int) -> bool {
    exists|q: int|
        0 <= q < k && q < 8 && tx == x + (#[trigger] neighbour_offset(q)).0 && ty == y
            + neighbour_offset(q).1
}

/// How many of the first `k` neighbours of `(x, y)` are floor tiles that
/// show the number 1.
pub open spec fn filled_among(tiles: Seq<Tile>, x: int, y: int, k: int) -> nat
    decreases k,
{
    if k <= 0 {
        0
    } else {
        let nx = x + neighbour_offset(k - 1).0;
        let ny = y + neighbour_offset(k - 1).1;
        filled_among(tiles, x, y, k - 1) + if 0 <= nx < GRID_WIDTH && 0 <= ny < GRID_HEIGHT && nx
            * GRID_HEIGHT + ny < tiles.len() && tiles[nx * GRID_HEIGHT + ny].tile_state
            == TileState::Floor && tiles[nx * GRID_HEIGHT + ny].number == 1 {
            1nat
        } else {
            0nat
        }
    }
}

/// The tiles after a tower has been placed at `(x, y)`: every floor tile
/// next to it with a positive number shows one less.
pub open spec fn decremented(tiles: Seq<Tile>, x: int, y: int) -> Seq<Tile> {
    Seq::new(
        tiles.len(),
        |i: int|
            if chebyshev(tiles[i].x as int, tiles[i].y as int, x, y) == 1 && tiles[i].tile_state
                == TileState::Floor && tiles[i].number > 0 {
                Tile { number: (tiles[i].number - 1) as usize, ..tiles[i] }
            } else {
                tiles[i]
            },
    )
}

/// Lowers the numbers around a tower newly placed at `(x, y)`. Returns how
/// many numbers reached zero by this: each of them is one "number filled"
/// signal. A number that was zero already stays zero and signals nothing.
pub fn decrement_numbers(grid: &mut Grid, x: usize, y: usize) -> (filled: usize)
    requires
        old(grid).wf(),
        x < usize::MAX,
        y < usize::MAX,
    ensures
        final(grid).wf(),
        final(grid).tiles@ == decremented(old(grid).tiles@, x as int, y as int),
        filled == filled_among(old(grid).tiles@, x as int, y as int, 8),
        filled <= 8,
        forall|i: int|
            0 <= i < old(grid).tiles@.len() ==> final(grid).tiles@[i].number <= old(
                grid,
            ).tiles@[i].number,
{
    let neighbours = grid.get_neighbours(x, y);
    let ghost before = grid.tiles@;
    let mut filled: usize = 0;
    let mut k: usize = 0;
    while k < 8
        invariant
            k <= 8,
            neighbours@.len() == 8,
            grid.wf(),
            old(grid).wf(),
            before == old(grid).tiles@,
            before.len() == grid.tiles@.len(),
            forall|q: int|
                0 <= q < 8 ==> neighbours@[q] == old(grid).tile_at(
                    x + neighbour_offset(q).0,
                    y + neighbour_offset(q).1,
                ),
            filled <= k,
            filled == filled_among(before, x as int, y as int, k as int),
            forall|i: int|
                0 <= i < before.len() ==> #[trigger] grid.tiles@[i] == if among_neighbours(
                    k as int,
                    x as int,
                    y as int,
                    before[i].x as int,
                    before[i].y as int,
                ) && before[i].tile_state == TileState::Floor && before[i].number > 0 {
                    Tile { number: (before[i].number - 1) as usize, ..before[i] }
                } else {
                    before[i]
                },
        decreases 8 - k,
    {
        let ghost nx = x + neighbour_offset(k as int).0;
        let ghost ny = y + neighbour_offset(k as int).1;
        proof {
            assert forall|tx: int, ty: int|
                among_neighbours(k + 1, x as int, y as int, tx, ty) <==> (among_neighbours(
                    k as int,
                    x as int,
                    y as int,
                    tx,
                    ty,
                ) || (tx == nx && ty == ny)) by {
                if among_neighbours(k as int, x as int, y as int, tx, ty) {
                    let q = choose|q: int|
                        0 <= q < k && q < 8 && tx == x + (#[trigger] neighbour_offset(q)).0 && ty
                            == y + neighbour_offset(q).1;
                    assert(q < k + 1);
                }
                if tx == nx && ty == ny {
                    assert(tx == x + neighbour_offset(k as int).0);
                }
            }
            assert(!among_neighbours(k as int, x as int, y as int, nx, ny)) by {
                if among_neighbours(k as int, x as int, y as int, nx, ny) {
                    let q = choose|q: int|
                        0 <= q < k && q < 8 && nx == x + (#[trigger] neighbour_offset(q)).0 && ny
                            == y + neighbour_offset(q).1;
                    assert(neighbour_offset(q) == neighbour_offset(k as int));
                }
            }
        }
        if let Some(n) = neighbours[k] {
            let t = grid.tiles[n.index];
            proof {
                assert(before[n.index as int].x == nx && before[n.index as int].y == ny);
                assert(t == before[n.index as int]);
            }
            if t.tile_state == TileState::Floor && t.number > 0 {
                let mut t2 = t;
                t2.number = t.number - 1;
                grid.tiles.set(n.index, t2);
                if t2.number == 0 {
                    filled = filled + 1;
                }
            }
        } else {
            proof {
                assert forall|i: int| 0 <= i < before.len() implies !(before[i].x == nx
                    && before[i].y == ny) by {}
            }
        }
        k = k + 1;
    }
    proof {
        assert forall|i: int| 0 <= i < before.len() implies grid.tiles@[i] == decremented(
            before,
            x as int,
            y as int,
        )[i] by {
            let tx = before[i].x as int;
            let ty = before[i].y as int;
            if among_neighbours(8, x as int, y as int, tx, ty) {
                let q = choose|q: int|
                    0 <= q < 8 && q < 8 && tx == x + (#[trigger] neighbour_offset(q)).0 && ty == y
                        + neighbour_offset(q).1;
            }
            if chebyshev(tx, ty, x as int, y as int) == 1 {
                let dx = tx - x;
                let dy = ty - y;
                let q: int = if dx == 0 && dy == 1 {
                    0
                } else if dx == 1 && dy == 1 {
                    1
                } else if dx == 1 && dy == 0 {
                    2
                } else if dx == 1 && dy == -1 {
                    3
                } else if dx == 0 && dy == -1 {
                    4
                } else if dx == -1 && dy == -1 {
                    5
                } else if dx == -1 && dy == 0 {
                    6
                } else {
                    7
                };
                assert(neighbour_offset(q) == (dx, dy));
            }
        }
        assert(grid.tiles@ =~= decremented(before, x as int, y as int));
    }
    filled
}

} // verus!
