//! Enemies.

use vstd::prelude::*;
use crate::castle::Castle;

verus! {

/// An enemy on its way to the castle.
#[derive(Copy, Clone, Debug, PartialEq, Eq, Structural)]
pub struct Enemy {
    pub health: u32,
}

impl Enemy {
    pub fn new(health: u32) -> (e: Enemy)
        ensures
            e.health == health,
    {
        Enemy { health }
    }

    /// Takes `damage` off the health, stopping at zero.
    pub fn take_damage(&mut self, damage: u32)
        ensures
            final(self).health == if damage > old(self).health {
                0
            } else {
                old(self).health - damage
            },
    {
        if damage > self.health {
            self.health = 0;
        } else {
            self.health = self.health - damage;
        }
    }
}

/// Decides what becomes of an enemy at the end of a step: one without
/// health is removed and drops one coin for the castle. Returns whether the
/// enemy is to be removed.
pub fn tick_enemy(enemy: &Enemy, castle: &mut Castle) -> (dead: bool)
    requires
        enemy.health == 0 ==> old(castle).money < u32::MAX,
    ensures
        dead == (enemy.health == 0),
        final(castle).health == old(castle).health,
        final(castle).money == if dead {
            old(castle).money + 1
        } else {
            old(castle).money as int
        },
{
    if enemy.health == 0 {
        castle.money = castle.money + 1;
        true
    } else {
        false
    }
}

} // verus!
