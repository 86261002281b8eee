//! The campaign: enemy counts and terrain of each level, and which level is played.

use vstd::prelude::*;

verus! {

/// Defines enemy counts and terrain for a single level.
#[derive(Clone, Copy, Debug, PartialEq, Eq, Structural)]
pub struct Level {
    pub grunts: usize,
    pub archers: usize,
    pub warlocks: usize,
    pub bombers: usize,
    pub walls: usize,
    pub grid_radius: i32,
}

/// The list of levels and the index of the one being played.
#[derive(Clone, Debug)]
pub struct LevelConfig {
    pub levels: Vec<Level>,
    pub current: usize,
}

/// A level with the given counts.
pub open spec fn level_of(
    grunts: usize,
    archers: usize,
    warlocks: usize,
    bombers: usize,
    walls: usize,
    grid_radius: i32,
) -> Level {
    Level { grunts, archers, warlocks, bombers, walls, grid_radius }
}

/// The built-in campaign: five levels of growing difficulty.
pub open spec fn campaign() -> Seq<Level> {
    seq![
        level_of(2, 0, 0, 0, 5, 4),
        level_of(2, 1, 0, 0, 8, 4),
        level_of(2, 1, 1, 0, 10, 4),
        level_of(3, 1, 1, 1, 12, 5),
        level_of(4, 2, 1, 1, 15, 5),
    ]
}

impl LevelConfig {
    /// Whether the current index names a level.
    pub open spec fn wf(&self) -> bool {
        self.current < self.levels@.len()
    }

    /// The level being played.
    pub fn current_level(&self) -> (l: &Level)
        requires
            self.wf(),
        ensures
            *l == self.levels@[self.current as int],
    {
        &self.levels[self.current]
    }

    /// Advance to the next level. Returns true if there is a next level; otherwise
    /// nothing changes, so the index never runs past the last level.
    pub fn advance(&mut self) -> (moved: bool)
        ensures
            moved == (old(self).current + 1 < old(self).levels@.len()),
            final(self).levels@ == old(self).levels@,
            final(self).current == if moved {
                old(self).current + 1
            } else {
                old(self).current as int
            },
            old(self).wf() ==> final(self).wf(),
    {
        if self.current < self.levels.len() && self.current + 1 < self.levels.len() {
            self.current += 1;
            true
        } else {
            false
        }
    }
}

impl Default for LevelConfig {
    /// The campaign, starting at its first level.
    fn default() -> (c: Self)
        ensures
            c.levels@ == campaign(),
            c.current == 0,
    {
        let mut levels: Vec<Level> = Vec::new();
        levels.push(Level { grunts: 2, archers: 0, warlocks: 0, bombers: 0, walls: 5, grid_radius: 4 });
        levels.push(Level { grunts: 2, archers: 1, warlocks: 0, bombers: 0, walls: 8, grid_radius: 4 });
        levels.push(Level { grunts: 2, archers: 1, warlocks: 1, bombers: 0, walls: 10, grid_radius: 4 });
        levels.push(Level { grunts: 3, archers: 1, warlocks: 1, bombers: 1, walls: 12, grid_radius: 5 });
        levels.push(Level { grunts: 4, archers: 2, warlocks: 1, bombers: 1, walls: 15, grid_radius: 5 });
        assert(levels@ =~= campaign());
        LevelConfig { levels, current: 0 }
    }
}

} // verus!
