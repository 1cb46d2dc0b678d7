//! Rules of a minesweeper tower-defence game: the tile grid and its ring
//! geometry, territory expansion with mine numbering, tower placement,
//! wave escalation and grid pathfinding.

pub mod ring;
pub mod grid;
pub mod coord_set;
pub mod castle;
pub mod territory;
pub mod pathfinding;
pub mod enemy;
pub mod director;
pub mod tower;
pub mod intercept;
pub mod placement;
