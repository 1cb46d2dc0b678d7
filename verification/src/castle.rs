//! The castle and the territory that grows around it.

use vstd::prelude::*;

verus! {

/// The territory: its centre, how far it reaches, and how densely the next
/// ring is mined.
#[derive(Copy, Clone, Debug, PartialEq, Eq, Structural)]
pub struct TerritoryInfo {
    pub radius: i32,
    pub x: usize,
    pub y: usize,
    /// Share of the wall candidates that become mines, in hundredths.
    pub bombs_percent: u32,
    pub battlements_style: bool,
}

impl TerritoryInfo {
    /// The radius is one that a territory reaches by growing from radius 1:
    /// positive and odd.
    pub open spec fn wf(&self) -> bool {
        self.radius >= 1 && self.radius % 2 == 1
    }

    /// The territory at the start of a game: radius 1 around `(10, 10)`,
    /// half of the walls mined, battlements style.
    pub fn new() -> (t: TerritoryInfo)
        ensures
            t == (TerritoryInfo {
                radius: 1,
                x: 10,
                y: 10,
                bombs_percent: 50,
                battlements_style: true,
            }),
            t.wf(),
    {
        TerritoryInfo { radius: 1, x: 10, y: 10, bombs_percent: 50, battlements_style: true }
    }
}

/// The territory after it has grown: two rings wider and ten hundredths
/// more densely mined.
pub open spec fn grown(info: TerritoryInfo) -> TerritoryInfo {
    TerritoryInfo {
        radius: (info.radius + 2) as i32,
        bombs_percent: (info.bombs_percent + 10) as u32,
        ..info
    }
}

/// Reacts to the numbers filled since the last step. If any was filled the
/// territory grows by two rings and ten hundredths of mine density, and the
/// result asks for an expansion pass; otherwise nothing changes.
pub fn number_filled(info: &mut TerritoryInfo, filled: bool) -> (expand: bool)
    requires
        filled ==> old(info).radius <= i32::MAX - 2 && old(info).bombs_percent <= u32::MAX - 10,
    ensures
        expand == filled,
        filled ==> *final(info) == grown(*old(info)),
        !filled ==> *final(info) == *old(info),
        final(info).radius >= old(info).radius,
        old(info).wf() ==> final(info).wf(),
{
    if filled {
        info.radius = info.radius + 2;
        info.bombs_percent = info.bombs_percent + 10;
        true
    } else {
        false
    }
}

/// The castle the enemies walk towards.
#[derive(Copy, Clone, Debug, PartialEq, Eq, Structural)]
pub struct Castle {
    pub health: u32,
    pub money: u32,
}

impl Castle {
    /// Takes `damage` off the health, stopping at zero.
    pub fn take_damage(&mut self, damage: u32)
        ensures
            final(self).health == if damage >= old(self).health {
                0
            } else {
                old(self).health - damage
            },
            final(self).money == old(self).money,
    {
        if damage >= self.health {
            self.health = 0;
        } else {
            self.health = self.health - damage;
        }
    }
}

} // verus!
