//! The wave director: how large the next wave is, how tough its enemies
//! are, and in which formation they arrive.

use vstd::prelude::*;
use rand::Rng;

verus! {

/// Formation of a wave.
#[derive(Copy, Clone, Debug, PartialEq, Eq, Structural)]
pub enum SpawnStrat {
    Burst,
    Spread,
    Line,
    Pincer,
}

/// Seconds between waves once the end game has begun.
pub const ENDGAME_DURATION: u32 = 4;

/// Difficulty at which the end game begins.
pub const ENDGAME_DIFFICULTY: u32 = 6;

/// What the director knows about the coming wave.
#[derive(Copy, Clone, Debug, PartialEq, Eq, Structural)]
pub struct SpawnInfo {
    /// Seconds between two waves.
    pub duration: u32,
    pub batch_size: u32,
    pub difficulty: u32,
    pub enemy_health: u32,
    pub next_strat: SpawnStrat,
}

/// The formation that belongs to a roll: 0 is a burst, 1 a spread, 2 a
/// line, anything else a pincer.
pub open spec fn strat_of_roll(roll: u32) -> SpawnStrat {
    if roll == 0 {
        SpawnStrat::Burst
    } else if roll == 1 {
        SpawnStrat::Spread
    } else if roll == 2 {
        SpawnStrat::Line
    } else {
        SpawnStrat::Pincer
    }
}

/// Seconds between waves at a difficulty: ten less half the difficulty,
/// and the end-game pace from the end-game difficulty on.
pub open spec fn wave_duration(difficulty: u32) -> int {
    if difficulty >= ENDGAME_DIFFICULTY {
        ENDGAME_DURATION as int
    } else {
        10 - difficulty / 2
    }
}

/// Draws a number from 0 to 3 with `rand::thread_rng().gen_range(0..4)`.
/// The draw is random; all that is claimed of it is that it lies in the
/// range asked for.
#[verifier::external_body]
fn roll_strategy() -> (roll: u32)
    ensures
        roll < 4,
{
    rand::thread_rng().gen_range(0..4)
}

impl SpawnInfo {
    /// The director at the start of a game.
    pub fn new() -> (s: SpawnInfo)
        ensures
            s == (SpawnInfo {
                duration: 10,
                batch_size: 5,
                difficulty: 0,
                enemy_health: 5,
                next_strat: SpawnStrat::Spread,
            }),
    {
        SpawnInfo {
            duration: 10,
            batch_size: 5,
            difficulty: 0,
            enemy_health: 5,
            next_strat: SpawnStrat::Spread,
        }
    }

    /// Switches to the pace of the end game.
    pub fn start_endgame(&mut self)
        ensures
            *final(self) == (SpawnInfo { duration: ENDGAME_DURATION, ..*old(self) }),
    {
        self.duration = ENDGAME_DURATION;
    }

    /// Plans the wave after the one just sent, given the roll that picks its
    /// formation: the batch grows by the difficulty, and the enemies get
    /// five health plus one for every ten in the batch. Returns the number
    /// of enemies in that wave.
    pub fn next_wave(&mut self, roll: u32) -> (num: u32)
        requires
            old(self).batch_size + old(self).difficulty <= u32::MAX,
        ensures
            num == old(self).batch_size + old(self).difficulty,
            *final(self) == (SpawnInfo {
                batch_size: num,
                enemy_health: (5 + num / 10) as u32,
                next_strat: strat_of_roll(roll),
                ..*old(self)
            }),
    {
        self.batch_size = self.batch_size + self.difficulty;
        let num = self.batch_size;
        self.enemy_health = 5 + num / 10;
        self.next_strat = match roll {
            0 => SpawnStrat::Burst,
            1 => SpawnStrat::Spread,
            2 => SpawnStrat::Line,
            _ => SpawnStrat::Pincer,
        };
        num
    }

    /// Plans the next wave with a formation drawn at random. Size and health
    /// are as `next_wave` gives them; the formation is whatever the draw
    /// picked.
    pub fn spawn_tick(&mut self) -> (num: u32)
        requires
            old(self).batch_size + old(self).difficulty <= u32::MAX,
        ensures
            num == old(self).batch_size + old(self).difficulty,
            exists|roll: u32|
                roll < 4 && *final(self) == (SpawnInfo {
                    batch_size: num,
                    enemy_health: (5 + num / 10) as u32,
                    next_strat: #[trigger] strat_of_roll(roll),
                    ..*old(self)
                }),
    {
        let spawn_r = roll_strategy();
        let num = self.next_wave(spawn_r);
        proof {
            assert(strat_of_roll(spawn_r) == self.next_strat);
        }
        num
    }
}

/// Makes the waves harder after one territory expansion: the difficulty
/// rises by one and the waves come faster. From the end-game difficulty on
/// the end game begins; the result says whether it did.
pub fn upgrade_director(spawn_info: &mut SpawnInfo) -> (endgame: bool)
    requires
        old(spawn_info).difficulty < u32::MAX,
    ensures
        endgame == (old(spawn_info).difficulty + 1 >= ENDGAME_DIFFICULTY),
        *final(spawn_info) == (SpawnInfo {
            difficulty: (old(spawn_info).difficulty + 1) as u32,
            duration: wave_duration((old(spawn_info).difficulty + 1) as u32) as u32,
            ..*old(spawn_info)
        }),
{
    spawn_info.difficulty = spawn_info.difficulty + 1;
    if spawn_info.difficulty >= ENDGAME_DIFFICULTY {
        spawn_info.start_endgame();
        true
    } else {
        spawn_info.duration = 10 - spawn_info.difficulty / 2;
        false
    }
}

/// Splits a pincer wave over its two sides: half of the enemies, rounded
/// down, on the first side and the rest on the other.
pub fn pincer_split(num: u32) -> (sides: (u32, u32))
    ensures
        sides.0 == num / 2,
        sides.0 + sides.1 == num,
{
    let half_num = num / 2;
    let other_num = num - half_num;
    (half_num, other_num)
}

/// Where one enemy of a wave appears, relative to the wave's anchor point
/// on the spawn circle.
#[derive(Copy, Clone, Debug, PartialEq, Eq, Structural)]
pub enum SpawnSlot {
    /// At a point of its own on the spawn circle.
    Scattered,
    /// Near the anchor.
    AtAnchor,
    /// Near the point opposite the anchor.
    Opposite,
    /// The given number of steps from the anchor, along its direction.
    Along(u32),
}

/// The slot of the `i`-th enemy in a wave of `num`.
pub open spec fn slot_of(strat: SpawnStrat, num: u32, i: int) -> SpawnSlot {
    match strat {
        SpawnStrat::Spread => SpawnSlot::Scattered,
        SpawnStrat::Burst => SpawnSlot::AtAnchor,
        SpawnStrat::Pincer => if i < num / 2 {
            SpawnSlot::AtAnchor
        } else {
            SpawnSlot::Opposite
        },
        SpawnStrat::Line => SpawnSlot::Along(i as u32),
    }
}

/// Lays out a wave of `num` enemies in the given formation: one slot for
/// each enemy. A spread scatters them, a burst gathers them at the anchor,
/// a pincer puts the first half at the anchor and the rest opposite, and a
/// line spaces them step by step.
pub fn wave_layout(strat: SpawnStrat, num: u32) -> (slots: Vec<SpawnSlot>)
    ensures
        slots@.len() == num,
        forall|i: int| 0 <= i < num ==> slots@[i] == slot_of(strat, num, i),
{
    let mut slots: Vec<SpawnSlot> = Vec::new();
    let (half_num, _other_num) = pincer_split(num);
    let mut i: u32 = 0;
    while i < num
        invariant
            i <= num,
            half_num == num / 2,
            slots@.len() == i,
            forall|k: int| 0 <= k < i ==> slots@[k] == slot_of(strat, num, k),
        decreases num - i,
    {
        let slot = match strat {
            SpawnStrat::Spread => SpawnSlot::Scattered,
            SpawnStrat::Burst => SpawnSlot::AtAnchor,
            SpawnStrat::Pincer => if i < half_num {
                SpawnSlot::AtAnchor
            } else {
                SpawnSlot::Opposite
            },
            SpawnStrat::Line => SpawnSlot::Along(i),
        };
        slots.push(slot);
        i = i + 1;
    }
    slots
}

} // verus!
