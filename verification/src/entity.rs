use vstd::prelude::*;

use crate::map::{grid_i32_bounded, is_passable, passable_at, DungeonMap};
use crate::rng::{lcg_next, rand_in_range, Rng};

verus! {

/// A creature on the map: its position, its display glyph, and the color
/// attribute the renderer shows it with. The player and the enemies share
/// this representation.
#[derive(Copy, Clone, PartialEq, Eq, Structural, Debug)]
pub struct Entity {
    pub x: i32,
    pub y: i32,
    pub c: char,
    pub cl: i16,
}

/// The unit delta a directional input code asks for: 's' (115) down,
/// 'w' (119) up, 'd' (100) right, 'a' (97) left; anything else is a no-op.
pub open spec fn dir_delta(dir: int) -> Option<(int, int)> {
    if dir == 115 {
        Some((0int, 1int))
    } else if dir == 119 {
        Some((0int, -1int))
    } else if dir == 100 {
        Some((1int, 0int))
    } else if dir == 97 {
        Some((-1int, 0int))
    } else {
        None
    }
}

/// The glyph the alphanumeric table holds at index `k` of `[0, 62)`:
/// 'a'..'z', then 'A'..'Z', then '0'..'9'.
pub open spec fn alnum_glyph(k: int) -> char {
    if 0 <= k < 26 {
        ((97 + k) as u8) as char
    } else if 26 <= k < 52 {
        ((65 + (k - 26)) as u8) as char
    } else {
        ((48 + (k - 52)) as u8) as char
    }
}

impl Entity {
    /// Try to move by the requested delta: the move commits only when the
    /// destination cell is passable, and is silently dropped otherwise.
    pub fn move_entity(&mut self, delta_x: i32, delta_y: i32, dungeon_map: &mut DungeonMap)
        requires
            grid_i32_bounded(old(dungeon_map).cells@),
        ensures
            *final(dungeon_map) == *old(dungeon_map),
            final(self).c == old(self).c,
            final(self).cl == old(self).cl,
            passable_at(
                old(dungeon_map).cells@,
                old(self).x + delta_x,
                old(self).y + delta_y,
            ) ==> final(self).x == old(self).x + delta_x && final(self).y == old(self).y + delta_y,
            !passable_at(
                old(dungeon_map).cells@,
                old(self).x + delta_x,
                old(self).y + delta_y,
            ) ==> final(self).x == old(self).x && final(self).y == old(self).y,
    {
        let new_x: i64 = self.x as i64 + delta_x as i64;
        let new_y: i64 = self.y as i64 + delta_y as i64;
        if 0 <= new_x && new_x <= i32::MAX as i64 && 0 <= new_y && new_y <= i32::MAX as i64 {
            let xi = new_x as i32;
            let yi = new_y as i32;
            if is_passable(xi, yi, dungeon_map) {
                self.x = xi;
                self.y = yi;
            }
        }
    }

    /// Give the entity a fresh alphanumeric glyph drawn from the generator.
    pub fn rand_char(&mut self, rng: &mut Rng)
        ensures
            final(self).x == old(self).x,
            final(self).y == old(self).y,
            final(self).cl == old(self).cl,
            final(self).c == alnum_glyph(rand_in_range(old(rng).state, 0, 62)),
            final(rng).state == lcg_next(old(rng).state),
    {
        let k = rng.rand_int(0, 62);
        let b: u8 = if k < 26 {
            97 + k as u8
        } else if k < 52 {
            65 + (k - 26) as u8
        } else {
            48 + (k - 52) as u8
        };
        self.c = b as char;
    }
}

/// Turn one input code into at most one move of the player: the four
/// directional codes ask for a unit step, anything else does nothing.
pub fn player_action(dir: i32, player: &mut Entity, dungeon_map: &mut DungeonMap)
    requires
        grid_i32_bounded(old(dungeon_map).cells@),
    ensures
        *final(dungeon_map) == *old(dungeon_map),
        final(player).c == old(player).c,
        final(player).cl == old(player).cl,
        (match dir_delta(dir as int) {
            Some(d) => {
                &&& passable_at(old(dungeon_map).cells@, old(player).x + d.0, old(player).y + d.1)
                    ==> final(player).x == old(player).x + d.0 && final(player).y == old(player).y
                    + d.1
                &&& !passable_at(old(dungeon_map).cells@, old(player).x + d.0, old(player).y + d.1)
                    ==> final(player).x == old(player).x && final(player).y == old(player).y
            },
            None => *final(player) == *old(player),
        }),
{
    match dir {
        115 => player.move_entity(0, 1, dungeon_map),
        119 => player.move_entity(0, -1, dungeon_map),
        100 => player.move_entity(1, 0, dungeon_map),
        97 => player.move_entity(-1, 0, dungeon_map),
        _ => (),
    }
}

} // verus!
