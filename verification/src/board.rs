//! How the board is drawn, as far as it is a decision: which explosion piece
//! a burning cell shows, which cells glow before sudden death walls them
//! in, and the sprite names of players and power-ups.

use vstd::prelude::*;

use crate::bot::{steps_fit, Cell};
use crate::domain::{Direction, PowerupKind, Rules, Tile};
use crate::text::{char_of_digit, digit_char, push_char, push_lit, string_lit};
use crate::world::{closing_order_spec, tile_at, world_wf, World, WorldView, SUDDEN_DEATH_TICKS_PER_CELL};

verus! {

/// The sprite for a burning cell with burning neighbours above, below, left
/// and right. A cell with neighbours both ways, or none, is a centre; a tip
/// points away from its one neighbour: it is the end of the arm.
pub open spec fn piece_for(up: bool, down: bool, left: bool, right: bool) -> &'static str {
    let horizontal = left || right;
    let vertical = up || down;
    if horizontal && vertical {
        "expl_center"
    } else if horizontal {
        if left && right {
            "expl_arm_h"
        } else if left {
            "expl_tip_right"
        } else {
            "expl_tip_left"
        }
    } else if vertical {
        if up && down {
            "expl_arm_v"
        } else if up {
            "expl_tip_down"
        } else {
            "expl_tip_up"
        }
    } else {
        "expl_center"
    }
}

fn burns(burning: &Vec<Cell>, c: Cell) -> (r: bool)
    ensures
        r == burning@.contains(c),
{
    let mut i: usize = 0;
    while i < burning.len()
        invariant
            i <= burning@.len(),
            forall|j: int| 0 <= j < i ==> burning@[j] != c,
        decreases burning.len() - i,
    {
        if burning[i].0 == c.0 && burning[i].1 == c.1 {
            assert(burning@[i as int] == c);
            return true;
        }
        i = i + 1;
    }
    false
}

/// Which explosion piece a burning cell shows, derived from its burning
/// neighbours. The server only lists burning cells; the sprite set splits a
/// blast into centre, arms and tips so any length can be built from them.
pub fn explosion_piece(x: i32, y: i32, burning: &Vec<Cell>) -> (r: &'static str)
    requires
        steps_fit((x, y)),
    ensures
        r == piece_for(
            burning@.contains((x, (y - 1) as i32)),
            burning@.contains((x, (y + 1) as i32)),
            burning@.contains(((x - 1) as i32, y)),
            burning@.contains(((x + 1) as i32, y)),
        ),
{
    let up = burns(burning, (x, y - 1));
    let down = burns(burning, (x, y + 1));
    let left = burns(burning, (x - 1, y));
    let right = burns(burning, (x + 1, y));
    let horizontal = left || right;
    let vertical = up || down;
    if horizontal && vertical {
        "expl_center"
    } else if horizontal {
        if left && right {
            "expl_arm_h"
        } else if left {
            "expl_tip_right"
        } else {
            "expl_tip_left"
        }
    } else if vertical {
        if up && down {
            "expl_arm_v"
        } else if up {
            "expl_tip_down"
        } else {
            "expl_tip_up"
        }
    } else {
        "expl_center"
    }
}

/// Board time for the warning glow, in hundredths of a tick, so that it can
/// move between ticks.
pub const STEPS_PER_TICK: u64 = 100;

/// Cells glow this long before they close.
pub const WARNING_LOOKAHEAD: u64 = 90 * STEPS_PER_TICK;

/// A cell about to be walled in.
#[derive(Debug, Clone, Copy, PartialEq, Eq, Structural)]
pub struct Warning {
    pub x: i32,
    pub y: i32,
    /// Its place in the closing order, which staggers the glow's pulse.
    pub index: u32,
    /// How long until it closes, in hundredths of a tick; the glow grows as
    /// this shrinks.
    pub ahead: u64,
}

/// When the `i`-th cell of the closing order is walled in, in hundredths of a tick.
pub open spec fn closes_at(rules: Rules, i: int) -> int {
    (rules.sudden_death_tick as int + SUDDEN_DEATH_TICKS_PER_CELL as int * i) * STEPS_PER_TICK as int
}

/// The glowing cells among the first `n` of the closing order: those that
/// close within the lookahead from `now` and are not walls already.
pub open spec fn warnings_spec(w: WorldView, rules: Rules, now: int, n: int) -> Seq<Warning>
    decreases n,
{
    if n <= 0 {
        Seq::empty()
    } else {
        let i = n - 1;
        let cell = closing_order_spec(w.width, w.height)[i];
        let ahead = closes_at(rules, i) - now;
        warnings_spec(w, rules, now, i) + if 0 <= ahead <= WARNING_LOOKAHEAD && tile_at(
            w,
            cell.0 as int,
            cell.1 as int,
        ) != Tile::Solid {
            seq![Warning { x: cell.0, y: cell.1, index: i as u32, ahead: ahead as u64 }]
        } else {
            Seq::empty()
        }
    }
}

/// The cells that glow before sudden death reaches them, in closing order;
/// none where the round ends before sudden death begins.
pub fn sudden_death_warnings(w: &World, rules: Rules, now: u64) -> (r: Vec<Warning>)
    requires
        world_wf(w@),
    ensures
        r@ == if rules.sudden_death_tick >= rules.round_time_ticks {
            Seq::empty()
        } else {
            warnings_spec(
                w@,
                rules,
                now as int,
                closing_order_spec(w.width, w.height).len() as int,
            )
        },
{
    let mut r: Vec<Warning> = Vec::new();
    if rules.sudden_death_tick >= rules.round_time_ticks {
        return r;
    }
    let order = World::closing_order(w.width, w.height);
    proof {
        crate::world::lemma_closing_order_len(w.width, w.height);
    }
    let start: u64 = rules.sudden_death_tick as u64 * STEPS_PER_TICK;
    let mut i: usize = 0;
    while i < order.len()
        invariant
            world_wf(w@),
            order@ == closing_order_spec(w.width, w.height),
            order@.len() <= 65536,
            start == rules.sudden_death_tick as int * STEPS_PER_TICK,
            i <= order@.len(),
            r@ == warnings_spec(w@, rules, now as int, i as int),
        decreases order.len() - i,
    {
        let (x, y) = order[i];
        let closes: u64 = start + (SUDDEN_DEATH_TICKS_PER_CELL as u64) * STEPS_PER_TICK * (i as u64);
        assert(closes == closes_at(rules, i as int)) by (nonlinear_arith)
            requires
                closes == start + 600 * i,
                start == rules.sudden_death_tick as int * 100,
                SUDDEN_DEATH_TICKS_PER_CELL == 6,
                STEPS_PER_TICK == 100,
        ;
        if closes >= now && closes - now <= WARNING_LOOKAHEAD && w.tile(x, y) != Tile::Solid {
            r.push(Warning { x, y, index: i as u32, ahead: closes - now });
        }
        i = i + 1;
    }
    r
}

// -- sprite names --------------------------------------------------------------------

/// The four player colours, by seat modulo four.
pub open spec fn variant_name(id: u8) -> Seq<char> {
    let v = id % 4;
    if v == 0 {
        seq!['b', 'l', 'u', 'e']
    } else if v == 1 {
        seq!['r', 'e', 'd']
    } else if v == 2 {
        seq!['y', 'e', 'l', 'l', 'o', 'w']
    } else {
        seq!['p', 'u', 'r', 'p', 'l', 'e']
    }
}

pub open spec fn facing_name(d: Direction) -> Seq<char> {
    match d {
        Direction::Down => seq!['d', 'o', 'w', 'n'],
        Direction::Up => seq!['u', 'p'],
        Direction::Left => seq!['l', 'e', 'f', 't'],
        Direction::Right => seq!['r', 'i', 'g', 'h', 't'],
    }
}

/// `player_<colour>_<facing>_<frame>`, the walk cycle having four frames.
pub open spec fn player_sprite_spec(id: u8, dir: Direction, frame: usize) -> Seq<char> {
    seq!['p', 'l', 'a', 'y', 'e', 'r', '_'] + variant_name(id) + seq!['_'] + facing_name(dir)
        + seq!['_', digit_char((frame % 4) as nat)]
}

/// The sprite of player `id` facing `dir` in walk frame `frame`.
pub fn player_sprite(id: u8, dir: Direction, frame: usize) -> (s: String)
    ensures
        s@ == player_sprite_spec(id, dir, frame),
{
    let mut s = string_lit(['p', 'l', 'a', 'y', 'e', 'r', '_']);
    let v = id % 4;
    if v == 0 {
        push_lit(&mut s, ['b', 'l', 'u', 'e']);
    } else if v == 1 {
        push_lit(&mut s, ['r', 'e', 'd']);
    } else if v == 2 {
        push_lit(&mut s, ['y', 'e', 'l', 'l', 'o', 'w']);
    } else {
        push_lit(&mut s, ['p', 'u', 'r', 'p', 'l', 'e']);
    }
    push_char(&mut s, '_');
    match dir {
        Direction::Down => push_lit(&mut s, ['d', 'o', 'w', 'n']),
        Direction::Up => push_lit(&mut s, ['u', 'p']),
        Direction::Left => push_lit(&mut s, ['l', 'e', 'f', 't']),
        Direction::Right => push_lit(&mut s, ['r', 'i', 'g', 'h', 't']),
    }
    push_char(&mut s, '_');
    push_char(&mut s, char_of_digit((frame % 4) as u8));
    proof {
        assert(s@ =~= player_sprite_spec(id, dir, frame));
    }
    s
}

pub open spec fn item_base(kind: PowerupKind) -> Seq<char> {
    match kind {
        PowerupKind::ExtraBomb => seq!['i', 't', 'e', 'm', '_', 'b', 'o', 'm', 'b', '_', 'u', 'p'],
        PowerupKind::Flame => seq!['i', 't', 'e', 'm', '_', 'f', 'i', 'r', 'e', '_', 'u', 'p'],
        PowerupKind::Speed => seq!['i', 't', 'e', 'm', '_', 's', 'p', 'e', 'e', 'd', '_', 'u', 'p'],
    }
}

/// The sprite of a power-up in frame `frame` of its two-frame shimmer.
pub fn item_sprite(kind: PowerupKind, frame: usize) -> (s: String)
    ensures
        s@ == item_base(kind) + seq!['_', digit_char((frame % 2) as nat)],
{
    let mut s = match kind {
        PowerupKind::ExtraBomb => string_lit(['i', 't', 'e', 'm', '_', 'b', 'o', 'm', 'b', '_', 'u', 'p']),
        PowerupKind::Flame => string_lit(['i', 't', 'e', 'm', '_', 'f', 'i', 'r', 'e', '_', 'u', 'p']),
        PowerupKind::Speed => string_lit(
            ['i', 't', 'e', 'm', '_', 's', 'p', 'e', 'e', 'd', '_', 'u', 'p'],
        ),
    };
    push_char(&mut s, '_');
    push_char(&mut s, char_of_digit((frame % 2) as u8));
    proof {
        assert(s@ =~= item_base(kind) + seq!['_', digit_char((frame % 2) as nat)]);
    }
    s
}

} // verus!
