//! The built-in bot: picks the next action for the local player.
//!
//! It makes no game decisions of its own -- it predicts danger in order to
//! choose *which* of the ordinary action codes to send. Every rule constant
//! comes from the match announcement.
//!
//! Model
//! -----
//! * Every cell gets **danger windows** `[start, end]` in ticks from now:
//!   burning flames, the predicted blast of every bomb (with its owner's
//!   *current* radius, since power-ups grow it), **chain reactions**, and the
//!   exact sudden-death closing order.
//! * A step takes `ticks_per_cell_at(speed)` ticks and binds to the target
//!   cell the moment it starts, so a cell must be safe from the moment the
//!   step begins until it can be left again.
//! * Path search runs over (cell, time) and treats **waiting** as a move. A
//!   *haven* is a cell that stays safe for a full fuse-plus-flame cycle.
//!
//! Priorities: survive, then bomb (when worth it *and* the escape is fast
//! enough), then head for a target (power-up, or a bomb spot next to crates or
//! opponents), then wait.
//!
//! Target values are kept exactly, in 1/48000ths, so that every weight the
//! bot applies (halves, three fifths, a fifth more for the last target, the
//! share of the sudden-death preparation time left) stays a whole number.

use vstd::prelude::*;

use crate::domain::{ticks_per_cell_spec, Action, PowerupKind, Rules, Tile};
use crate::world::{
    aged, closing_order_spec, player_index, tile_at, world_wf, PlayerView, World, WorldView,
    SUDDEN_DEATH_TICKS_PER_CELL,
};

verus! {

/// A cell of the board, `x` then `y`.
pub type Cell = (i32, i32);

/// Planning depth in steps.
pub const K_MAX: usize = 20;

/// "Never", in ticks.
pub const INF: i64 = 1073741824;

/// After a bomb command, wait this long for the bomb to show up instead of
/// sending another.
pub const BOMB_COOLDOWN_TICKS: u32 = 12;

/// After sending a move, do not bomb for this many ticks.
pub const MOVE_SETTLE_TICKS: u32 = 2;

/// How long before sudden death the retreat from the edge begins.
pub const SD_PREP_TICKS: i64 = 1200;

/// A "deep" haven is walled in no sooner than this.
pub const SD_DEEP_TICKS: i64 = 480;

/// Latency and jitter: danger is taken to start a little early and last a
/// little long.
pub const SAFETY_MARGIN_TICKS: i64 = 6;

/// One unit of target value, in the bot's fixed-point scale. Values and the
/// utilities they are compared by are exact fractions here, where a version
/// in floating point would round them: where such rounding alone tips a
/// comparison, the choice can differ from one made in floating point.
pub const VALUE_ONE: i64 = 48000;

/// The four steps, in the order every search tries them: up, down, left,
/// right.
pub open spec fn dir_spec(i: int) -> Cell {
    if i == 0 {
        (0i32, -1i32)
    } else if i == 1 {
        (0i32, 1i32)
    } else if i == 2 {
        (-1i32, 0i32)
    } else {
        (1i32, 0i32)
    }
}

fn dir(i: usize) -> (d: Cell)
    requires
        i < 4,
    ensures
        d == dir_spec(i as int),
{
    if i == 0 {
        (0, -1)
    } else if i == 1 {
        (0, 1)
    } else if i == 2 {
        (-1, 0)
    } else {
        (1, 0)
    }
}

pub open spec fn step_action_spec(d: Cell) -> Action {
    if d == (0i32, -1i32) {
        Action::Up
    } else if d == (0i32, 1i32) {
        Action::Down
    } else if d == (-1i32, 0i32) {
        Action::Left
    } else {
        Action::Right
    }
}

/// The move for a step `d`; anything but up, down or left reads as right.
pub fn step_action(d: Cell) -> (a: Action)
    ensures
        a == step_action_spec(d),
{
    if d.0 == 0 && d.1 == -1 {
        Action::Up
    } else if d.0 == 0 && d.1 == 1 {
        Action::Down
    } else if d.0 == -1 && d.1 == 0 {
        Action::Left
    } else {
        Action::Right
    }
}

pub open spec fn step_bomb_action_spec(d: Cell) -> Action {
    if d == (0i32, -1i32) {
        Action::UpBomb
    } else if d == (0i32, 1i32) {
        Action::DownBomb
    } else if d == (-1i32, 0i32) {
        Action::LeftBomb
    } else {
        Action::RightBomb
    }
}

/// A bomb dropped here, then the step `d`.
pub fn step_bomb_action(d: Cell) -> (a: Action)
    ensures
        a == step_bomb_action_spec(d),
{
    if d.0 == 0 && d.1 == -1 {
        Action::UpBomb
    } else if d.0 == 0 && d.1 == 1 {
        Action::DownBomb
    } else if d.0 == -1 && d.1 == 0 {
        Action::LeftBomb
    } else {
        Action::RightBomb
    }
}

pub open spec fn is_step_spec(a: Action) -> bool {
    a == Action::Up || a == Action::Down || a == Action::Left || a == Action::Right
}

/// A plain step, without a bomb.
pub fn is_step(a: Action) -> (r: bool)
    ensures
        r == is_step_spec(a),
{
    match a {
        Action::Up | Action::Down | Action::Left | Action::Right => true,
        _ => false,
    }
}

pub open spec fn without_bomb_spec(a: Action) -> Option<Action> {
    match a {
        Action::Bomb => Some(Action::Idle),
        Action::UpBomb => Some(Action::Up),
        Action::DownBomb => Some(Action::Down),
        Action::LeftBomb => Some(Action::Left),
        Action::RightBomb => Some(Action::Right),
        _ => None,
    }
}

/// A bomb is a one-shot: on a frozen state, repeat only the movement part.
/// `None` for an action that drops no bomb.
pub fn without_bomb(a: Action) -> (r: Option<Action>)
    ensures
        r == without_bomb_spec(a),
{
    match a {
        Action::Bomb => Some(Action::Idle),
        Action::UpBomb => Some(Action::Up),
        Action::DownBomb => Some(Action::Down),
        Action::LeftBomb => Some(Action::Left),
        Action::RightBomb => Some(Action::Right),
        _ => None,
    }
}

pub open spec fn powerup_value_spec(kind: PowerupKind) -> int {
    match kind {
        PowerupKind::Flame => 3 * VALUE_ONE,
        PowerupKind::ExtraBomb => 5 * VALUE_ONE / 2,
        PowerupKind::Speed => 2 * VALUE_ONE,
    }
}

/// What a power-up is worth: three for flame, two and a half for a bomb, two
/// for speed.
fn powerup_value(kind: PowerupKind) -> (v: i64)
    ensures
        v == powerup_value_spec(kind),
{
    match kind {
        PowerupKind::Flame => 3 * VALUE_ONE,
        PowerupKind::ExtraBomb => 5 * VALUE_ONE / 2,
        PowerupKind::Speed => 2 * VALUE_ONE,
    }
}

// -- geometry ----------------------------------------------------------------

/// Coordinates far enough from the ends of `i32` that a blast or a step
/// around them cannot overflow.
pub open spec fn cell_in_range(c: Cell) -> bool {
    -1000000 <= c.0 <= 1000000 && -1000000 <= c.1 <= 1000000
}

/// A step from `c` in any of the four directions stays within `i32`.
pub open spec fn steps_fit(c: Cell) -> bool {
    i32::MIN < c.0 < i32::MAX && i32::MIN < c.1 < i32::MAX
}

pub open spec fn free_spec(w: WorldView, c: Cell) -> bool {
    tile_at(w, c.0 as int, c.1 as int) == Tile::Empty
}

fn free(state: &World, c: Cell) -> (r: bool)
    requires
        world_wf(state@),
    ensures
        r == free_spec(state@, c),
{
    state.tile(c.0, c.1) == Tile::Empty
}

pub open spec fn walkable_spec(w: WorldView, x: int, y: int) -> bool {
    tile_at(w, x, y) == Tile::Empty && !crate::world::has_bomb_at(w, x, y)
}

/// Free, in bounds, and no bomb on it.
pub fn walkable(state: &World, x: i32, y: i32) -> (r: bool)
    requires
        world_wf(state@),
    ensures
        r == walkable_spec(state@, x as int, y as int),
{
    free(state, (x, y)) && !state.bomb_at(x, y)
}

/// The cells an arm of a blast reaches from step `r` on: it runs through
/// empty cells, stops at a wall, and takes a crate but stops behind it.
pub open spec fn arm(w: WorldView, bx: int, by: int, dx: int, dy: int, r: int, n: int) -> Seq<Cell>
    decreases n + 1 - r,
{
    if r > n {
        Seq::empty()
    } else {
        let x = bx + dx * r;
        let y = by + dy * r;
        match tile_at(w, x, y) {
            Tile::Solid => Seq::empty(),
            Tile::Soft => seq![(x as i32, y as i32)],
            Tile::Empty => seq![(x as i32, y as i32)] + arm(w, bx, by, dx, dy, r + 1, n),
        }
    }
}

/// A radius of zero blasts like a radius of one.
pub open spec fn blast_reach(radius: u8) -> int {
    if radius == 0 {
        1
    } else {
        radius as int
    }
}

/// The cross a bomb at (bx, by) with `radius` covers: its own cell, then the
/// arms up, down, left and right.
pub open spec fn blast_spec(w: WorldView, bx: int, by: int, radius: u8) -> Seq<Cell> {
    let n = blast_reach(radius);
    seq![(bx as i32, by as i32)] + arm(w, bx, by, 0, -1, 1, n) + arm(w, bx, by, 0, 1, 1, n) + arm(
        w,
        bx,
        by,
        -1,
        0,
        1,
        n,
    ) + arm(w, bx, by, 1, 0, 1, n)
}

/// The tile `m` cells from (bx, by) in direction `d`.
pub open spec fn arm_tile(w: WorldView, bx: int, by: int, d: int, m: int) -> Tile {
    tile_at(w, bx + dir_spec(d).0 * m, by + dir_spec(d).1 * m)
}

/// Every cell of an arm from step `r` on: it lies at its distance along the
/// arm, within the reach, is no wall, and every cell before it on the arm,
/// from step `r0` on, is empty.
proof fn lemma_arm_cells(w: WorldView, bx: int, by: int, d: int, r0: int, r: int, n: int)
    requires
        0 <= d < 4,
        1 <= r0 <= r,
        forall|m: int| r0 <= m < r ==> #[trigger] arm_tile(w, bx, by, d, m) == Tile::Empty,
    ensures
        forall|j: int|
            0 <= j < arm(w, bx, by, dir_spec(d).0 as int, dir_spec(d).1 as int, r, n).len() ==> {
                let c = #[trigger] arm(w, bx, by, dir_spec(d).0 as int, dir_spec(d).1 as int, r, n)[j];
                let k = r + j;
                &&& k <= n
                &&& c.0 as int == bx + dir_spec(d).0 * k
                &&& c.1 as int == by + dir_spec(d).1 * k
                &&& tile_at(w, c.0 as int, c.1 as int) != Tile::Solid
                &&& forall|m: int| r0 <= m < k ==> #[trigger] arm_tile(w, bx, by, d, m) == Tile::Empty
            },
    decreases n + 1 - r,
{
    let dx = dir_spec(d).0 as int;
    let dy = dir_spec(d).1 as int;
    let a = arm(w, bx, by, dx, dy, r, n);
    if r <= n {
        let x = bx + dx * r;
        let y = by + dy * r;
        let t = tile_at(w, x, y);
        if t == Tile::Empty {
            lemma_arm_cells(w, bx, by, d, r0, r + 1, n);
            let rest = arm(w, bx, by, dx, dy, r + 1, n);
            assert(a == seq![(x as i32, y as i32)] + rest);
            assert forall|j: int| 0 <= j < a.len() implies {
                let c = #[trigger] a[j];
                let k = r + j;
                &&& k <= n
                &&& c.0 as int == bx + dir_spec(d).0 * k
                &&& c.1 as int == by + dir_spec(d).1 * k
                &&& tile_at(w, c.0 as int, c.1 as int) != Tile::Solid
                &&& forall|m: int| r0 <= m < k ==> #[trigger] arm_tile(w, bx, by, d, m) == Tile::Empty
            } by {
                if j > 0 {
                    assert(a[j] == rest[j - 1]);
                }
            }
        }
    }
}

/// `c` is `r` cells from (bx, by) in some direction `d`, within the reach a
/// bomb of `radius` has (at least one), no wall, and every cell before it on
/// that line is empty: no crate or wall stands between the bomb and `c`.
pub open spec fn in_reach(w: WorldView, bx: int, by: int, radius: u8, c: Cell) -> bool {
    exists|d: int, r: int|
        #![trigger arm_tile(w, bx, by, d, r)]
        {
            &&& 0 <= d < 4
            &&& 1 <= r <= (if radius == 0 {
                1
            } else {
                radius as int
            })
            &&& c.0 as int == bx + dir_spec(d).0 * r
            &&& c.1 as int == by + dir_spec(d).1 * r
            &&& arm_tile(w, bx, by, d, r) != Tile::Solid
            &&& forall|m: int| 1 <= m < r ==> #[trigger] arm_tile(w, bx, by, d, m) == Tile::Empty
        }
}

proof fn lemma_arm_in_reach(w: WorldView, bx: int, by: int, radius: u8, d: int, j: int)
    requires
        0 <= d < 4,
        0 <= j < arm(w, bx, by, dir_spec(d).0 as int, dir_spec(d).1 as int, 1, blast_reach(radius)).len(),
    ensures
        in_reach(w, bx, by, radius, arm(w, bx, by, dir_spec(d).0 as int, dir_spec(d).1 as int, 1, blast_reach(radius))[j]),
{
    let n = blast_reach(radius);
    lemma_arm_cells(w, bx, by, d, 1, 1, n);
    let c = arm(w, bx, by, dir_spec(d).0 as int, dir_spec(d).1 as int, 1, n)[j];
    let r = 1 + j;
    assert(arm_tile(w, bx, by, d, r) == tile_at(w, c.0 as int, c.1 as int));
    assert(forall|m: int| 1 <= m < r ==> #[trigger] arm_tile(w, bx, by, d, m) == Tile::Empty);
}

/// A bomb's blast is its own cell and cells in its reach: along each arm it
/// stops at the first crate or wall, a crate hit and a wall not.
#[verifier::spinoff_prover]
pub proof fn lemma_blast_stops_at_crates(w: WorldView, bx: int, by: int, radius: u8)
    ensures
        blast_spec(w, bx, by, radius).len() >= 1,
        blast_spec(w, bx, by, radius)[0] == (bx as i32, by as i32),
        forall|i: int|
            1 <= i < blast_spec(w, bx, by, radius).len() ==> in_reach(
                w,
                bx,
                by,
                radius,
                #[trigger] blast_spec(w, bx, by, radius)[i],
            ),
{
    let n = blast_reach(radius);
    let a0 = arm(w, bx, by, 0, -1, 1, n);
    let a1 = arm(w, bx, by, 0, 1, 1, n);
    let a2 = arm(w, bx, by, -1, 0, 1, n);
    let a3 = arm(w, bx, by, 1, 0, 1, n);
    let b = blast_spec(w, bx, by, radius);
    assert(b == seq![(bx as i32, by as i32)] + a0 + a1 + a2 + a3);
    assert forall|i: int| 1 <= i < b.len() implies in_reach(w, bx, by, radius, #[trigger] b[i]) by {
        let j = i - 1;
        if j < a0.len() {
            assert(b[i] == a0[j]);
            lemma_arm_in_reach(w, bx, by, radius, 0, j);
        } else if j < a0.len() + a1.len() {
            assert(b[i] == a1[j - a0.len()]);
            lemma_arm_in_reach(w, bx, by, radius, 1, j - a0.len());
        } else if j < a0.len() + a1.len() + a2.len() {
            assert(b[i] == a2[j - a0.len() - a1.len()]);
            lemma_arm_in_reach(w, bx, by, radius, 2, j - a0.len() - a1.len());
        } else {
            assert(b[i] == a3[j - a0.len() - a1.len() - a2.len()]);
            lemma_arm_in_reach(w, bx, by, radius, 3, j - a0.len() - a1.len() - a2.len());
        }
    }
}

fn push_arm(state: &World, out: &mut Vec<Cell>, bx: i32, by: i32, d: usize, n: i32)
    requires
        world_wf(state@),
        d < 4,
        1 <= n <= 255,
        steps_fit((bx, by)),
    ensures
        final(out)@ == old(out)@ + arm(
            state@,
            bx as int,
            by as int,
            dir_spec(d as int).0 as int,
            dir_spec(d as int).1 as int,
            1,
            n as int,
        ),
{
    let (dx, dy) = dir(d);
    let ghost start = out@;
    let ghost whole = arm(state@, bx as int, by as int, dx as int, dy as int, 1, n as int);
    let mut r: i32 = 1;
    while r <= n
        invariant
            1 <= r <= n + 1,
            n <= 255,
            world_wf(state@),
            -1 <= dx <= 1,
            -1 <= dy <= 1,
            steps_fit((bx, by)),
            r > 1 ==> 0 <= bx + dx * (r - 1) < 256 && 0 <= by + dy * (r - 1) < 256,
            d < 4,
            dx == dir_spec(d as int).0,
            dy == dir_spec(d as int).1,
            start == old(out)@,
            whole == arm(state@, bx as int, by as int, dx as int, dy as int, 1, n as int),
            start + whole == out@ + arm(state@, bx as int, by as int, dx as int, dy as int, r as int, n as int),
        decreases n + 1 - r,
    {
        assert(-255 <= dx * r <= 255 && -255 <= dy * r <= 255) by (nonlinear_arith)
            requires
                -1 <= dx <= 1,
                -1 <= dy <= 1,
                1 <= r <= 255,
        ;
        let x = bx + dx * r;
        let y = by + dy * r;
        let ghost rest = arm(state@, bx as int, by as int, dx as int, dy as int, r as int + 1, n as int);
        match state.tile(x, y) {
            Tile::Solid => {
                assert(out@ + arm(state@, bx as int, by as int, dx as int, dy as int, r as int, n as int) =~= out@);
                return;
            },
            Tile::Soft => {
                let ghost before = out@;
                out.push((x, y));
                assert(before + arm(state@, bx as int, by as int, dx as int, dy as int, r as int, n as int) =~= out@);
                return;
            },
            Tile::Empty => {
                let ghost before = out@;
                out.push((x, y));
                assert(before + arm(state@, bx as int, by as int, dx as int, dy as int, r as int, n as int) =~= out@ + rest);
            },
        }
        r = r + 1;
    }
    assert(out@ + arm(state@, bx as int, by as int, dx as int, dy as int, r as int, n as int) =~= out@);
}

/// Cells a bomb at (bx, by) with `radius` reaches: a cross, stopped by walls;
/// a crate is hit and then stops the arm.
pub fn blast_cells(state: &World, bx: i32, by: i32, radius: u8) -> (cells: Vec<Cell>)
    requires
        world_wf(state@),
        steps_fit((bx, by)),
    ensures
        cells@ == blast_spec(state@, bx as int, by as int, radius),
{
    let n: i32 = if radius == 0 { 1 } else { radius as i32 };
    let mut cells: Vec<Cell> = Vec::new();
    cells.push((bx, by));
    push_arm(state, &mut cells, bx, by, 0, n);
    push_arm(state, &mut cells, bx, by, 1, n);
    push_arm(state, &mut cells, bx, by, 2, n);
    push_arm(state, &mut cells, bx, by, 3, n);
    cells
}

/// `c` is one of `cells`.
fn cell_in(cells: &Vec<Cell>, c: Cell) -> (r: bool)
    ensures
        r == cells@.contains(c),
{
    let mut i: usize = 0;
    while i < cells.len()
        invariant
            i <= cells@.len(),
            forall|j: int| 0 <= j < i ==> cells@[j] != c,
        decreases cells.len() - i,
    {
        if cells[i].0 == c.0 && cells[i].1 == c.1 {
            assert(cells@[i as int] == c);
            return true;
        }
        i = i + 1;
    }
    false
}


// -- danger model --------------------------------------------------------------

pub open spec fn match_tick_spec(w: WorldView, rules: Rules, now_tick: u32) -> Option<int> {
    if now_tick != 0 {
        Some(now_tick as int)
    } else if rules.round_time_ticks == 0 || w.ticks_remaining == 0 {
        None
    } else {
        Some(rules.round_time_ticks - w.ticks_remaining)
    }
}

/// The current match tick. The frame tick *is* the match tick; the timer is
/// only refreshed by keyframes and can be up to 29 ticks stale. `None` when
/// neither is known.
fn match_tick(state: &World, rules: &Rules, now_tick: u32) -> (r: Option<i64>)
    ensures
        match match_tick_spec(state@, *rules, now_tick) {
            Some(t) => r == Some(t as i64) && r.unwrap() == t,
            None => r is None,
        },
{
    if now_tick != 0 {
        return Some(now_tick as i64);
    }
    if rules.round_time_ticks == 0 || state.ticks_remaining == 0 {
        return None;
    }
    Some(rules.round_time_ticks as i64 - state.ticks_remaining as i64)
}

pub open spec fn radius_of_spec(w: WorldView, owner: u8, rules: Rules) -> u8 {
    let i = player_index(w.players, owner);
    if i >= 0 {
        w.players[i].flame
    } else {
        rules.max_flame
    }
}

/// The blast radius of a bomb: its owner's flame now, since power-ups grow
/// it. Unknown owner: the rule maximum.
fn radius_of(state: &World, owner: u8, rules: &Rules) -> (r: u8)
    requires
        world_wf(state@),
    ensures
        r == radius_of_spec(state@, owner, *rules),
{
    match state.player(owner) {
        Some(p) => p.flame,
        None => rules.max_flame,
    }
}

/// A counter aged by the ticks since it was stamped. Keyframes come every 30
/// ticks and deltas do not count fuses down.
pub fn remaining(value: i64, seen_tick: u32, now_tick: u32) -> (r: i64)
    requires
        value - (if now_tick > seen_tick {
            now_tick - seen_tick
        } else {
            0
        }) >= i64::MIN,
    ensures
        r == aged(value as int, seen_tick as int, now_tick as int),
{
    let gone: i64 = now_tick as i64 - seen_tick as i64;
    let gone: i64 = if gone > 0 { gone } else { 0 };
    let left: i64 = value - gone;
    if left > 0 {
        left
    } else {
        0
    }
}

/// Danger windows: each is a cell and the ticks from now, first and last, in
/// which it is lethal. A cell may have many; they stay in the order they were
/// added.
pub struct Intervals {
    pub windows: Vec<(Cell, i64, i64)>,
}

/// The windows on one cell, in the order they were added.
pub open spec fn windows_on(ws: Seq<(Cell, i64, i64)>, c: Cell) -> Seq<(i64, i64)>
    decreases ws.len(),
{
    if ws.len() == 0 {
        Seq::empty()
    } else {
        windows_on(ws.drop_last(), c) + if ws.last().0 == c {
            seq![(ws.last().1, ws.last().2)]
        } else {
            Seq::empty()
        }
    }
}

/// No window on `c` overlaps the ticks `t0..=t1`.
pub open spec fn safe_in(ws: Seq<(Cell, i64, i64)>, c: Cell, t0: int, t1: int) -> bool {
    forall|i: int| 0 <= i < ws.len() && ws[i].0 == c ==> !(ws[i].1 <= t1 && ws[i].2 >= t0)
}

impl Intervals {
    pub fn new() -> (iv: Intervals)
        ensures
            iv.windows@ == Seq::<(Cell, i64, i64)>::empty(),
    {
        Intervals { windows: Vec::new() }
    }

    /// The windows on `c`, in the order they were added.
    pub fn windows_at(&self, c: Cell) -> (r: Vec<(i64, i64)>)
        ensures
            r@ == windows_on(self.windows@, c),
    {
        let mut r: Vec<(i64, i64)> = Vec::new();
        let mut i: usize = 0;
        while i < self.windows.len()
            invariant
                i <= self.windows@.len(),
                r@ == windows_on(self.windows@.take(i as int), c),
            decreases self.windows.len() - i,
        {
            proof {
                assert(self.windows@.take(i as int + 1).drop_last() =~= self.windows@.take(i as int));
            }
            let w = self.windows[i];
            if w.0.0 == c.0 && w.0.1 == c.1 {
                r.push((w.1, w.2));
            }
            proof {
                let t = self.windows@.take(i as int + 1);
                assert(t.last() == w);
                assert(r@ =~= windows_on(t, c));
            }
            i = i + 1;
        }
        proof {
            assert(self.windows@.take(self.windows@.len() as int) =~= self.windows@);
        }
        r
    }

    /// Some window lies on `c`.
    pub fn covers(&self, c: Cell) -> (r: bool)
        ensures
            r == exists|i: int| 0 <= i < self.windows@.len() && self.windows@[i].0 == c,
    {
        let mut i: usize = 0;
        while i < self.windows.len()
            invariant
                i <= self.windows@.len(),
                forall|j: int| 0 <= j < i ==> self.windows@[j].0 != c,
            decreases self.windows.len() - i,
        {
            if self.windows[i].0.0 == c.0 && self.windows[i].0.1 == c.1 {
                assert(self.windows@[i as int].0 == c);
                return true;
            }
            i = i + 1;
        }
        false
    }

    /// No window on `c` overlaps the ticks `t0..=t1`.
    pub fn safe(&self, c: Cell, t0: i64, t1: i64) -> (r: bool)
        ensures
            r == safe_in(self.windows@, c, t0 as int, t1 as int),
    {
        let mut i: usize = 0;
        while i < self.windows.len()
            invariant
                i <= self.windows@.len(),
                forall|j: int|
                    0 <= j < i && self.windows@[j].0 == c ==> !(self.windows@[j].1 <= t1
                        && self.windows@[j].2 >= t0),
            decreases self.windows.len() - i,
        {
            let w = self.windows[i];
            if w.0.0 == c.0 && w.0.1 == c.1 && w.1 <= t1 && w.2 >= t0 {
                assert(self.windows@[i as int].0 == c);
                return false;
            }
            i = i + 1;
        }
        true
    }
}

/// Marks `cell` lethal from `s` (never before now) to `e`.
pub fn add(iv: &mut Intervals, cell: Cell, s: i64, e: i64)
    ensures
        final(iv).windows@ == old(iv).windows@.push((cell, if s > 0 { s } else { 0 }, e)),
{
    let s: i64 = if s > 0 { s } else { 0 };
    iv.windows.push((cell, s, e));
}

/// Burning flames: lethal from now until they die down, plus the margin.
pub open spec fn flame_windows(fs: Seq<crate::world::FlameView>, now_tick: u32) -> Seq<(Cell, i64, i64)> {
    Seq::new(
        fs.len(),
        |i: int|
            (
                (fs[i].x as i32, fs[i].y as i32),
                0i64,
                (aged(fs[i].ticks as int, fs[i].seen_tick as int, now_tick as int)
                    + SAFETY_MARGIN_TICKS) as i64,
            ),
    )
}

// -- chain reactions -------------------------------------------------------------

/// Bomb `a`'s blast reaches bomb `b` and sets it off.
pub open spec fn sets_off(cells: Seq<Cell>, blasts: Seq<Seq<Cell>>, a: int, b: int) -> bool {
    a != b && blasts[a].contains(cells[b])
}

/// Bomb `j` sets off bomb `i` through a chain of at most `n` links.
pub open spec fn reaches(cells: Seq<Cell>, blasts: Seq<Seq<Cell>>, j: int, i: int, n: nat) -> bool
    decreases n,
{
    if n == 0 {
        j == i
    } else {
        reaches(cells, blasts, j, i, (n - 1) as nat) || exists|k: int|
            0 <= k < cells.len() && reaches(cells, blasts, j, k, (n - 1) as nat) && sets_off(
                cells,
                blasts,
                k,
                i,
            )
    }
}

/// No bomb goes off later than its own fuse, or later than a bomb that sets
/// it off.
pub open spec fn settled(cells: Seq<Cell>, blasts: Seq<Seq<Cell>>, fuses: Seq<i64>, dets: Seq<i64>) -> bool {
    &&& dets.len() == cells.len()
    &&& forall|a: int, b: int|
        0 <= a < cells.len() && 0 <= b < cells.len() && sets_off(cells, blasts, a, b) ==> dets[b]
            <= dets[a]
    &&& forall|i: int| 0 <= i < cells.len() ==> dets[i] <= fuses[i]
}

/// Every bomb goes off at the fuse of some bomb that sets it off, itself
/// included.
pub open spec fn sourced(cells: Seq<Cell>, blasts: Seq<Seq<Cell>>, fuses: Seq<i64>, dets: Seq<i64>) -> bool {
    forall|i: int| 0 <= i < cells.len() ==> #[trigger] sourced_at(cells, blasts, fuses, dets, i)
}

/// Bomb `i` goes off at the fuse of some bomb that sets it off.
pub open spec fn sourced_at(
    cells: Seq<Cell>,
    blasts: Seq<Seq<Cell>>,
    fuses: Seq<i64>,
    dets: Seq<i64>,
    i: int,
) -> bool {
    exists|j: int, n: nat|
        #![trigger reaches(cells, blasts, j, i, n)]
        0 <= j < cells.len() && reaches(cells, blasts, j, i, n) && dets[i] == fuses[j]
}

/// When each bomb goes off once chain reactions are counted: the earliest
/// fuse of any bomb that sets it off, directly or through others.
pub open spec fn chain_dets(cells: Seq<Cell>, blasts: Seq<Seq<Cell>>, fuses: Seq<i64>) -> Seq<i64> {
    choose|dets: Seq<i64>| settled(cells, blasts, fuses, dets) && sourced(cells, blasts, fuses, dets)
}

/// In a settled chain no bomb goes off after any bomb that reaches it.
proof fn lemma_settled_bound(
    cells: Seq<Cell>,
    blasts: Seq<Seq<Cell>>,
    fuses: Seq<i64>,
    dets: Seq<i64>,
    j: int,
    i: int,
    n: nat,
)
    requires
        settled(cells, blasts, fuses, dets),
        0 <= j < cells.len(),
        0 <= i < cells.len(),
        reaches(cells, blasts, j, i, n),
    ensures
        dets[i] <= fuses[j],
    decreases n,
{
    if n > 0 {
        if reaches(cells, blasts, j, i, (n - 1) as nat) {
            lemma_settled_bound(cells, blasts, fuses, dets, j, i, (n - 1) as nat);
        } else {
            let k = choose|k: int|
                0 <= k < cells.len() && reaches(cells, blasts, j, k, (n - 1) as nat) && sets_off(
                    cells,
                    blasts,
                    k,
                    i,
                );
            lemma_settled_bound(cells, blasts, fuses, dets, j, k, (n - 1) as nat);
        }
    }
}

/// A settled chain goes off no later than any sourced one.
proof fn lemma_settled_first(
    cells: Seq<Cell>,
    blasts: Seq<Seq<Cell>>,
    fuses: Seq<i64>,
    d1: Seq<i64>,
    d2: Seq<i64>,
    i: int,
)
    requires
        settled(cells, blasts, fuses, d1),
        sourced(cells, blasts, fuses, d2),
        0 <= i < cells.len(),
    ensures
        d1[i] <= d2[i],
{
    assert(sourced_at(cells, blasts, fuses, d2, i));
    let (j, n) = choose|j: int, n: nat|
        #![trigger reaches(cells, blasts, j, i, n)]
        0 <= j < cells.len() && reaches(cells, blasts, j, i, n) && d2[i] == fuses[j];
    lemma_settled_bound(cells, blasts, fuses, d1, j, i, n);
}

/// A chain reaction gives every bomb the earliest fuse of all the bombs that
/// set it off, directly or through others; nothing else is both settled and
/// sourced.
pub proof fn lemma_chain_takes_earliest_fuse(
    cells: Seq<Cell>,
    blasts: Seq<Seq<Cell>>,
    fuses: Seq<i64>,
    dets: Seq<i64>,
)
    requires
        settled(cells, blasts, fuses, dets),
        sourced(cells, blasts, fuses, dets),
    ensures
        dets == chain_dets(cells, blasts, fuses),
        forall|j: int, i: int, n: nat|
            0 <= j < cells.len() && 0 <= i < cells.len() && reaches(cells, blasts, j, i, n)
                ==> dets[i] <= fuses[j],
{
    assert forall|j: int, i: int, n: nat|
        0 <= j < cells.len() && 0 <= i < cells.len() && reaches(cells, blasts, j, i, n) implies dets[i]
        <= fuses[j] by {
        lemma_settled_bound(cells, blasts, fuses, dets, j, i, n);
    }
    let other = chain_dets(cells, blasts, fuses);
    assert(settled(cells, blasts, fuses, other) && sourced(cells, blasts, fuses, other));
    assert forall|i: int| 0 <= i < cells.len() implies dets[i] == other[i] by {
        lemma_settled_first(cells, blasts, fuses, dets, other, i);
        lemma_settled_first(cells, blasts, fuses, other, dets, i);
    }
    assert(dets =~= other);
}

/// Every bomb sets itself off: the fuses as they are are sourced.
proof fn lemma_sourced_start(cells: Seq<Cell>, blasts: Seq<Seq<Cell>>, fuses: Seq<i64>)
    requires
        fuses.len() == cells.len(),
    ensures
        sourced(cells, blasts, fuses, fuses),
{
    assert forall|i: int| 0 <= i < cells.len() implies sourced_at(cells, blasts, fuses, fuses, i) by {
        let z: nat = 0;
        assert(reaches(cells, blasts, i, i, z));
        assert(0 <= i < cells.len() && reaches(cells, blasts, i, i, z) && fuses[i] == fuses[i]);
    }
}

/// Bomb `b` taking the time of a bomb `a` that sets it off stays sourced.
proof fn lemma_sourced_relax(
    cells: Seq<Cell>,
    blasts: Seq<Seq<Cell>>,
    fuses: Seq<i64>,
    dets: Seq<i64>,
    a: int,
    b: int,
)
    requires
        sourced(cells, blasts, fuses, dets),
        dets.len() == cells.len(),
        0 <= a < cells.len(),
        0 <= b < cells.len(),
        sets_off(cells, blasts, a, b),
    ensures
        sourced(cells, blasts, fuses, dets.update(b, dets[a])),
{
    let nd = dets.update(b, dets[a]);
    assert(sourced_at(cells, blasts, fuses, dets, a));
    let (j, m) = choose|j: int, n: nat|
        #![trigger reaches(cells, blasts, j, a, n)]
        0 <= j < cells.len() && reaches(cells, blasts, j, a, n) && dets[a] == fuses[j];
    assert(reaches(cells, blasts, j, b, m + 1));
    assert forall|i: int| 0 <= i < cells.len() implies sourced_at(cells, blasts, fuses, nd, i) by {
        if i == b {
            assert(reaches(cells, blasts, j, b, m + 1) && nd[i] == fuses[j]);
        } else {
            assert(dets[i] == nd[i]);
            assert(sourced_at(cells, blasts, fuses, dets, i));
            let (j2, n2) = choose|j2: int, n2: nat|
                #![trigger reaches(cells, blasts, j2, i, n2)]
                0 <= j2 < cells.len() && reaches(cells, blasts, j2, i, n2) && dets[i] == fuses[j2];
            assert(reaches(cells, blasts, j2, i, n2));
        }
    }
}

/// The cells of each blast.
pub open spec fn views(blasts: Seq<Vec<Cell>>) -> Seq<Seq<Cell>> {
    Seq::new(blasts.len(), |i: int| blasts[i]@)
}

pub open spec fn seq_sum(s: Seq<i64>) -> int
    decreases s.len(),
{
    if s.len() == 0 {
        0
    } else {
        seq_sum(s.drop_last()) + s.last()
    }
}

proof fn lemma_sum_update(s: Seq<i64>, i: int, v: i64)
    requires
        0 <= i < s.len(),
    ensures
        seq_sum(s.update(i, v)) == seq_sum(s) - s[i] + v,
    decreases s.len(),
{
    if i < s.len() - 1 {
        assert(s.update(i, v).drop_last() =~= s.drop_last().update(i, v));
        lemma_sum_update(s.drop_last(), i, v);
    } else {
        assert(s.update(i, v).drop_last() =~= s.drop_last());
    }
}

proof fn lemma_sum_nonneg(s: Seq<i64>)
    requires
        forall|i: int| 0 <= i < s.len() ==> s[i] >= 0,
    ensures
        seq_sum(s) >= 0,
    decreases s.len(),
{
    if s.len() > 0 {
        lemma_sum_nonneg(s.drop_last());
    }
}

/// Gives every bomb the fuse of the earliest bomb that sets it off, by
/// relaxing along "sets off" until nothing changes.
fn settle_chain(cells: &Vec<Cell>, blasts: &Vec<Vec<Cell>>, fuses: &Vec<i64>) -> (dets: Vec<i64>)
    requires
        cells@.len() == blasts@.len(),
        cells@.len() == fuses@.len(),
        forall|i: int| 0 <= i < fuses@.len() ==> fuses@[i] >= 0,
    ensures
        dets@ == chain_dets(cells@, views(blasts@), fuses@),
        dets@.len() == cells@.len(),
        forall|i: int| #![trigger dets@[i]] 0 <= i < dets@.len() ==> 0 <= dets@[i] <= fuses@[i],
{
    let ghost bl = views(blasts@);
    let n = cells.len();
    let mut dets: Vec<i64> = Vec::new();
    let mut i: usize = 0;
    while i < n
        invariant
            i <= n,
            n == fuses@.len(),
            dets@ == fuses@.take(i as int),
        decreases n - i,
    {
        dets.push(fuses[i]);
        proof {
            assert(dets@ =~= fuses@.take(i as int + 1));
        }
        i = i + 1;
    }
    proof {
        assert(dets@ =~= fuses@);
        lemma_sourced_start(cells@, bl, fuses@);
        lemma_sum_nonneg(dets@);
    }
    let mut changed = true;
    while changed
        invariant
            n == cells@.len(),
            n == blasts@.len(),
            n == fuses@.len(),
            bl == views(blasts@),
            dets@.len() == n,
            forall|i: int| #![trigger dets@[i]] 0 <= i < n ==> 0 <= dets@[i] <= fuses@[i],
            sourced(cells@, bl, fuses@, dets@),
            !changed ==> settled(cells@, bl, fuses@, dets@),
            seq_sum(dets@) >= 0,
        decreases seq_sum(dets@) + if changed { 1int } else { 0int },
    {
        let ghost start = dets@;
        changed = false;
        let mut a: usize = 0;
        while a < n
            invariant
                n == cells@.len(),
                n == blasts@.len(),
                n == fuses@.len(),
                bl == views(blasts@),
                a <= n,
                dets@.len() == n,
                forall|i: int| #![trigger dets@[i]] 0 <= i < n ==> 0 <= dets@[i] <= fuses@[i],
                sourced(cells@, bl, fuses@, dets@),
                !changed ==> dets@ == start,
                changed ==> seq_sum(dets@) < seq_sum(start),
                seq_sum(dets@) <= seq_sum(start),
                !changed ==> forall|x: int, y: int|
                    0 <= x < a && 0 <= y < n && sets_off(cells@, bl, x, y) ==> dets@[y] <= dets@[x],
            decreases n - a,
        {
            let mut b: usize = 0;
            while b < n
                invariant
                    n == cells@.len(),
                    n == blasts@.len(),
                    n == fuses@.len(),
                    bl == views(blasts@),
                    a < n,
                    b <= n,
                    dets@.len() == n,
                    forall|i: int| #![trigger dets@[i]] 0 <= i < n ==> 0 <= dets@[i] <= fuses@[i],
                    sourced(cells@, bl, fuses@, dets@),
                    !changed ==> dets@ == start,
                    changed ==> seq_sum(dets@) < seq_sum(start),
                    seq_sum(dets@) <= seq_sum(start),
                    !changed ==> forall|x: int, y: int|
                        0 <= x < a && 0 <= y < n && sets_off(cells@, bl, x, y) ==> dets@[y]
                            <= dets@[x],
                    !changed ==> forall|y: int|
                        0 <= y < b && sets_off(cells@, bl, a as int, y) ==> dets@[y] <= dets@[a as int],
                decreases n - b,
            {
                assert(bl[a as int] == blasts@[a as int]@);
                if a != b && cell_in(&blasts[a], cells[b]) && dets[a] < dets[b] {
                    let ghost before = dets@;
                    let v = dets[a];
                    proof {
                        lemma_sum_update(dets@, b as int, v);
                        lemma_sourced_relax(cells@, bl, fuses@, dets@, a as int, b as int);
                    }
                    dets.set(b, v);
                    changed = true;
                }
                b = b + 1;
            }
            a = a + 1;
        }
        proof {
            lemma_sum_nonneg(dets@);
        }
    }
    proof {
        lemma_chain_takes_earliest_fuse(cells@, bl, fuses@, dets@);
    }
    dets
}


// -- the danger windows of a state --------------------------------------------------

/// Where the bombs stand, with the one we consider placing last.
pub open spec fn bomb_cells_spec(w: WorldView, extra: Option<(Cell, u8)>) -> Seq<Cell> {
    Seq::new(w.bombs.len(), |i: int| (w.bombs[i].x as i32, w.bombs[i].y as i32)) + match extra {
        Some((c, _)) => seq![c],
        None => Seq::empty(),
    }
}

/// Their fuses aged to now; the one we consider placing has a full fuse.
pub open spec fn bomb_fuses_spec(w: WorldView, rules: Rules, extra: Option<(Cell, u8)>, now_tick: u32) -> Seq<i64> {
    Seq::new(
        w.bombs.len(),
        |i: int| aged(w.bombs[i].fuse as int, w.bombs[i].seen_tick as int, now_tick as int) as i64,
    ) + match extra {
        Some(_) => seq![rules.bomb_fuse_ticks as i64],
        None => Seq::empty(),
    }
}

/// Their blasts, each with its owner's radius now.
pub open spec fn bomb_blasts_spec(w: WorldView, rules: Rules, extra: Option<(Cell, u8)>) -> Seq<Seq<Cell>> {
    Seq::new(
        w.bombs.len(),
        |i: int|
            blast_spec(
                w,
                w.bombs[i].x as int,
                w.bombs[i].y as int,
                radius_of_spec(w, w.bombs[i].owner, rules),
            ),
    ) + match extra {
        Some((c, r)) => seq![blast_spec(w, c.0 as int, c.1 as int, r)],
        None => Seq::empty(),
    }
}

/// A bomb going off at `det`: every cell of its blast is lethal from a margin
/// before until the flames die down, plus the margin.
pub open spec fn blast_windows(blast: Seq<Cell>, det: int, flame: int) -> Seq<(Cell, i64, i64)> {
    Seq::new(
        blast.len(),
        |j: int|
            (
                blast[j],
                (if det - SAFETY_MARGIN_TICKS > 0 {
                    det - SAFETY_MARGIN_TICKS
                } else {
                    0
                }) as i64,
                (det + flame + SAFETY_MARGIN_TICKS) as i64,
            ),
    )
}

/// The windows of the first `k` bombs, bomb by bomb.
pub open spec fn bomb_windows(blasts: Seq<Seq<Cell>>, dets: Seq<i64>, flame: int, k: int) -> Seq<(Cell, i64, i64)>
    decreases k,
{
    if k <= 0 {
        Seq::empty()
    } else {
        bomb_windows(blasts, dets, flame, k - 1) + blast_windows(blasts[k - 1], dets[k - 1] as int, flame)
    }
}

/// How many cells of the closing order start closing within `horizon`, the
/// first one starting at `base` and each next one a period later.
pub open spec fn sd_count(len: int, base: int, horizon: int) -> int {
    if base > horizon {
        0
    } else if (horizon - base) / (SUDDEN_DEATH_TICKS_PER_CELL as int) + 1 < len {
        (horizon - base) / (SUDDEN_DEATH_TICKS_PER_CELL as int) + 1
    } else {
        len
    }
}

/// The window of the `i`th cell to close, `base` ticks from now for the
/// first.
pub open spec fn sd_entry(order: Seq<Cell>, base: int, i: int) -> (Cell, i64, i64) {
    (
        order[i],
        (if base + SUDDEN_DEATH_TICKS_PER_CELL * i > 0 {
            base + SUDDEN_DEATH_TICKS_PER_CELL * i
        } else {
            0
        }) as i64,
        INF,
    )
}

/// Every interior cell is lethal for good from its exact closing tick; only
/// the cells closing within four fuses from now are listed.
pub open spec fn sd_windows(w: WorldView, rules: Rules, now_tick: u32) -> Seq<(Cell, i64, i64)> {
    match match_tick_spec(w, rules, now_tick) {
        None => Seq::empty(),
        Some(now) => if rules.round_time_ticks == 0 || rules.sudden_death_tick
            >= rules.round_time_ticks {
            Seq::empty()
        } else {
            let order = closing_order_spec(w.width, w.height);
            let base = rules.sudden_death_tick - now;
            let horizon = rules.bomb_fuse_ticks * 4;
            Seq::new(
                sd_count(order.len() as int, base, horizon) as nat,
                |i: int| sd_entry(order, base, i),
            )
        },
    }
}

/// Cell by cell, the windows in ticks from now in which it is lethal: the
/// flames burning now, every bomb (chain reactions included), and the closing
/// border.
pub open spec fn danger_spec(w: WorldView, rules: Rules, extra: Option<(Cell, u8)>, now_tick: u32) -> Seq<(Cell, i64, i64)> {
    let cells = bomb_cells_spec(w, extra);
    let blasts = bomb_blasts_spec(w, rules, extra);
    let fuses = bomb_fuses_spec(w, rules, extra, now_tick);
    flame_windows(w.flames, now_tick) + bomb_windows(
        blasts,
        chain_dets(cells, blasts, fuses),
        rules.flame_duration_ticks as int,
        blasts.len() as int,
    ) + sd_windows(w, rules, now_tick)
}

/// Cell -> windows (start, end) in ticks from now in which it is lethal.
/// `extra_bomb` simulates one of our own, placed right now.
pub fn danger_intervals(
    state: &World,
    rules: &Rules,
    extra_bomb: Option<(Cell, u8)>,
    now_tick: u32,
) -> (iv: Intervals)
    requires
        world_wf(state@),
        extra_bomb matches Some((c, _)) ==> steps_fit(c),
    ensures
        iv.windows@ == danger_spec(state@, *rules, extra_bomb, now_tick),
{
    let mut iv = Intervals::new();
    let mut i: usize = 0;
    while i < state.flames.len()
        invariant
            i <= state.flames@.len(),
            iv.windows@ == flame_windows(state.flames@, now_tick).take(i as int),
        decreases state.flames.len() - i,
    {
        let f = state.flames[i];
        let left = remaining(f.ticks as i64, f.seen_tick, now_tick);
        self::add(&mut iv, (f.x as i32, f.y as i32), 0, left + SAFETY_MARGIN_TICKS);
        proof {
            assert(iv.windows@ =~= flame_windows(state.flames@, now_tick).take(i as int + 1));
        }
        i = i + 1;
    }
    proof {
        assert(flame_windows(state.flames@, now_tick).take(state.flames@.len() as int)
            =~= flame_windows(state.flames@, now_tick));
    }
    let ghost flames_part = iv.windows@;

    // Bombs including chains.
    let ghost w = state@;
    let mut cells: Vec<Cell> = Vec::new();
    let mut fuses: Vec<i64> = Vec::new();
    let mut blasts: Vec<Vec<Cell>> = Vec::new();
    let mut i: usize = 0;
    while i < state.bombs.len()
        invariant
            world_wf(state@),
            w == state@,
            i <= state.bombs@.len(),
            cells@ == bomb_cells_spec(w, None).take(i as int),
            blasts@.len() == i,
            fuses@ == bomb_fuses_spec(w, *rules, None, now_tick).take(i as int),
            views(blasts@) == bomb_blasts_spec(w, *rules, None).take(i as int),
            forall|k: int| #![trigger fuses@[k]] 0 <= k < fuses@.len() ==> 0 <= fuses@[k] <= 65535,
        decreases state.bombs.len() - i,
    {
        let b = state.bombs[i];
        cells.push((b.x as i32, b.y as i32));
        fuses.push(remaining(b.fuse as i64, b.seen_tick, now_tick));
        let r = radius_of(state, b.owner, rules);
        let bc = blast_cells(state, b.x as i32, b.y as i32, r);
        proof {
            assert(bc@ == bomb_blasts_spec(w, *rules, None)[i as int]);
        }
        let ghost before = blasts@;
        blasts.push(bc);
        proof {
            assert forall|k: int| 0 <= k < i + 1 implies views(blasts@)[k] == bomb_blasts_spec(
                w,
                *rules,
                None,
            )[k] by {
                if k < i {
                    assert(blasts@[k] == before[k]);
                    assert(views(before)[k] == before[k]@);
                }
            }
            assert(cells@ =~= bomb_cells_spec(w, None).take(i as int + 1));
            assert(fuses@ =~= bomb_fuses_spec(w, *rules, None, now_tick).take(i as int + 1));
            assert(views(blasts@) =~= bomb_blasts_spec(w, *rules, None).take(
                i as int + 1,
            ));
        }
        i = i + 1;
    }
    proof {
        assert(bomb_cells_spec(w, None).take(state.bombs@.len() as int) =~= bomb_cells_spec(w, None));
        assert(bomb_fuses_spec(w, *rules, None, now_tick).take(state.bombs@.len() as int)
            =~= bomb_fuses_spec(w, *rules, None, now_tick));
        assert(bomb_blasts_spec(w, *rules, None).take(state.bombs@.len() as int) =~= bomb_blasts_spec(
            w,
            *rules,
            None,
        ));
    }
    match extra_bomb {
        Some((cell, radius)) => {
            cells.push(cell);
            fuses.push(rules.bomb_fuse_ticks as i64);
            blasts.push(blast_cells(state, cell.0, cell.1, radius));
        },
        None => {},
    }
    proof {
        assert(cells@ =~= bomb_cells_spec(w, extra_bomb));
        assert(fuses@ =~= bomb_fuses_spec(w, *rules, extra_bomb, now_tick));
        assert(views(blasts@) =~= bomb_blasts_spec(w, *rules, extra_bomb));
    }
    let dets = settle_chain(&cells, &blasts, &fuses);
    let ghost bl = views(blasts@);
    let flame: i64 = rules.flame_duration_ticks as i64;
    let n = blasts.len();
    let mut a: usize = 0;
    while a < n
        invariant
            n == blasts@.len(),
            n == dets@.len(),
            a <= n,
            bl == views(blasts@),
            flame == rules.flame_duration_ticks,
            forall|k: int| #![trigger dets@[k]] 0 <= k < n ==> 0 <= dets@[k] <= 65535,
            iv.windows@ == flames_part + bomb_windows(bl, dets@, flame as int, a as int),
        decreases n - a,
    {
        let blast = &blasts[a];
        let det = dets[a];
        let ghost before = iv.windows@;
        let mut j: usize = 0;
        while j < blast.len()
            invariant
                j <= blast@.len(),
                blast@ == bl[a as int],
                0 <= det <= 65535,
                flame == rules.flame_duration_ticks,
                iv.windows@ == before + blast_windows(bl[a as int], det as int, flame as int).take(j as int),
            decreases blast.len() - j,
        {
            self::add(&mut iv, blast[j], det - SAFETY_MARGIN_TICKS, det + flame + SAFETY_MARGIN_TICKS);
            proof {
                assert(iv.windows@ =~= before + blast_windows(bl[a as int], det as int, flame as int).take(
                    j as int + 1,
                ));
            }
            j = j + 1;
        }
        proof {
            assert(blast_windows(bl[a as int], det as int, flame as int).take(blast@.len() as int)
                =~= blast_windows(bl[a as int], det as int, flame as int));
            assert(iv.windows@ =~= flames_part + bomb_windows(bl, dets@, flame as int, a as int + 1));
        }
        a = a + 1;
    }
    sudden_death_intervals(state, rules, &mut iv, now_tick);
    iv
}

/// Every interior cell is lethal for good from its exact closing tick.
fn sudden_death_intervals(state: &World, rules: &Rules, iv: &mut Intervals, now_tick: u32)
    requires
        world_wf(state@),
    ensures
        final(iv).windows@ == old(iv).windows@ + sd_windows(state@, *rules, now_tick),
{
    let total = rules.round_time_ticks;
    let now = match match_tick(state, rules, now_tick) {
        Some(now) => now,
        None => {
            assert(old(iv).windows@ + sd_windows(state@, *rules, now_tick) =~= old(iv).windows@);
            return;
        },
    };
    if total == 0 || rules.sudden_death_tick >= total {
        assert(old(iv).windows@ + sd_windows(state@, *rules, now_tick) =~= old(iv).windows@);
        return;
    }
    let horizon: i64 = rules.bomb_fuse_ticks as i64 * 4;
    let order = World::closing_order(state.width, state.height);
    let base: i64 = rules.sudden_death_tick as i64 - now;
    let ghost start = iv.windows@;
    proof {
        assert(-5000000000 <= now <= 5000000000);
    }
    proof {
        crate::world::lemma_closing_order_len(state.width, state.height);
    }
    let mut i: usize = 0;
    let mut done = false;
    while i < order.len() && !done
        invariant
            i <= order@.len(),
            order@.len() <= 65536,
            -5000000000 <= now <= 5000000000,
            base == rules.sudden_death_tick - now,
            horizon == rules.bomb_fuse_ticks * 4,
            iv.windows@ == start + Seq::new(i as nat, |k: int| sd_entry(order@, base as int, k)),
            i > 0 ==> base + SUDDEN_DEATH_TICKS_PER_CELL * (i - 1) <= horizon,
            done ==> base + SUDDEN_DEATH_TICKS_PER_CELL * i > horizon,
        decreases order.len() - i + if done { 0int } else { 1int },
    {
        let start_tick: i64 = base + SUDDEN_DEATH_TICKS_PER_CELL as i64 * i as i64;
        if start_tick > horizon {
            done = true;
        } else {
            self::add(iv, order[i], start_tick, INF);
            proof {
                assert(iv.windows@ =~= start + Seq::new(i as nat + 1, |k: int| sd_entry(order@, base as int, k)));
            }
            i = i + 1;
        }
    }
    proof {
        let count = sd_count(order@.len() as int, base as int, horizon as int);
        let len = order@.len() as int;
        if base > horizon {
            assert(i == 0);
        } else {
            let q = (horizon - base) / 6;
            assert(0 <= horizon - base - 6 * q < 6);
            if done {
                assert(i - 1 <= q);
                assert(q < i);
                assert(i == q + 1);
            } else {
                assert(i == len);
                assert(len - 1 <= q);
            }
        }
        assert(i == count);
        assert(Seq::new(i as nat, |k: int| sd_entry(order@, base as int, k)) =~= sd_windows(state@, *rules, now_tick));
    }
}

pub open spec fn count_owned(bs: Seq<crate::world::BombView>, player: u8) -> int
    decreases bs.len(),
{
    if bs.len() == 0 {
        0
    } else {
        count_owned(bs.drop_last(), player) + if bs.last().owner == player {
            1int
        } else {
            0int
        }
    }
}

pub open spec fn bomb_capacity_spec(w: WorldView, player: u8) -> int {
    let i = player_index(w.players, player);
    if i < 0 {
        0
    } else {
        let most = if w.players[i].bombs_max == 0 {
            1
        } else {
            w.players[i].bombs_max as int
        };
        let active = count_owned(w.bombs, player) % 256;
        if most > active {
            most - active
        } else {
            0
        }
    }
}

/// Bombs a player could still place right now; none for an unknown player.
pub fn bomb_capacity(state: &World, player: u8) -> (r: u8)
    requires
        world_wf(state@),
    ensures
        r == bomb_capacity_spec(state@, player),
{
    let p = match state.player(player) {
        Some(p) => p,
        None => return 0,
    };
    let mut active: usize = 0;
    let mut i: usize = 0;
    while i < state.bombs.len()
        invariant
            i <= state.bombs@.len(),
            active == count_owned(state.bombs@.take(i as int), player),
            active <= i,
        decreases state.bombs.len() - i,
    {
        proof {
            assert(state.bombs@.take(i as int + 1).drop_last() =~= state.bombs@.take(i as int));
        }
        if state.bombs[i].owner == player {
            active = active + 1;
        }
        i = i + 1;
    }
    proof {
        assert(state.bombs@.take(state.bombs@.len() as int) =~= state.bombs@);
    }
    let active: u8 = (active % 256) as u8;
    let most: u8 = if p.bombs_max == 0 { 1 } else { p.bombs_max };
    most.saturating_sub(active)
}

/// A living opponent with a spare bomb: its blast is no place to linger.
pub open spec fn threatens(w: WorldView, p: PlayerView, my_id: u8) -> bool {
    p.id != my_id && p.alive && bomb_capacity_spec(w, p.id) != 0
}

/// The blasts of the first `k` players that threaten us, one after another.
pub open spec fn threat_from(w: WorldView, my_id: u8, k: int) -> Seq<Cell>
    decreases k,
{
    if k <= 0 {
        Seq::empty()
    } else {
        let p = w.players[k - 1];
        threat_from(w, my_id, k - 1) + if threatens(w, p, my_id) {
            blast_spec(w, p.x as int, p.y as int, p.flame)
        } else {
            Seq::empty()
        }
    }
}

/// Cells a living opponent with a spare bomb could hit *now*. Not certain
/// danger, but no place to linger. A cell two opponents cover is listed
/// twice.
pub fn threat_cells(state: &World, my_id: u8) -> (cells: Vec<Cell>)
    requires
        world_wf(state@),
    ensures
        cells@ == threat_from(state@, my_id, state@.players.len() as int),
{
    let mut cells: Vec<Cell> = Vec::new();
    let mut i: usize = 0;
    while i < state.players.len()
        invariant
            world_wf(state@),
            i <= state.players@.len(),
            cells@ == threat_from(state@, my_id, i as int),
        decreases state.players.len() - i,
    {
        let p = state.players[i];
        if p.id != my_id && p.alive && bomb_capacity(state, p.id) != 0 {
            let blast = blast_cells(state, p.x as i32, p.y as i32, p.flame);
            let mut j: usize = 0;
            let ghost before = cells@;
            while j < blast.len()
                invariant
                    j <= blast@.len(),
                    cells@ == before + blast@.take(j as int),
                decreases blast.len() - j,
            {
                cells.push(blast[j]);
                proof {
                    assert(cells@ =~= before + blast@.take(j as int + 1));
                }
                j = j + 1;
            }
            proof {
                assert(blast@.take(blast@.len() as int) =~= blast@);
            }
        }
        proof {
            assert(cells@ =~= threat_from(state@, my_id, i as int + 1));
        }
        i = i + 1;
    }
    cells
}

pub open spec fn step_from(c: Cell, i: int) -> (int, int) {
    (c.0 + dir_spec(i).0, c.1 + dir_spec(i).1)
}

pub open spec fn walkable_next(w: WorldView, c: Cell, i: int) -> int {
    if walkable_spec(w, step_from(c, i).0, step_from(c, i).1) {
        1
    } else {
        0
    }
}

/// At most one walkable neighbour: few escape routes.
pub open spec fn cornered_spec(w: WorldView, c: Cell) -> bool {
    walkable_next(w, c, 0) + walkable_next(w, c, 1) + walkable_next(w, c, 2) + walkable_next(w, c, 3) <= 1
}

/// At most one walkable neighbour: few escape routes, a worthwhile target.
fn is_cornered(state: &World, x: i32, y: i32) -> (r: bool)
    requires
        world_wf(state@),
        cell_in_range((x, y)),
    ensures
        r == cornered_spec(state@, (x, y)),
{
    let mut count: u8 = 0;
    let mut i: usize = 0;
    while i < 4
        invariant
            i <= 4,
            world_wf(state@),
            cell_in_range((x, y)),
            count as int == (if i > 0 { walkable_next(state@, (x, y), 0) } else { 0 }) + (if i > 1 {
                walkable_next(state@, (x, y), 1)
            } else {
                0
            }) + (if i > 2 { walkable_next(state@, (x, y), 2) } else { 0 }) + (if i > 3 {
                walkable_next(state@, (x, y), 3)
            } else {
                0
            }),
        decreases 4 - i,
    {
        let d = dir(i);
        if walkable(state, x + d.0, y + d.1) {
            count = count + 1;
        }
        i = i + 1;
    }
    count <= 1
}


// -- what the bot sees --------------------------------------------------------------

/// The bot's view of one state: passability, danger windows, threat zones.
pub struct Sight<'a> {
    state: &'a World,
    blocked: Vec<Cell>,
    intervals: Intervals,
    threat: Vec<Cell>,
    closing: Vec<(Cell, i64)>,
    pub sd_prep: bool,
    haven_ticks: i64,
}

/// A sight as plain values.
pub struct SightView {
    pub w: WorldView,
    pub blocked: Seq<Cell>,
    pub windows: Seq<(Cell, i64, i64)>,
    pub threat: Seq<Cell>,
    pub closing: Seq<(Cell, i64)>,
    pub sd_prep: bool,
    pub haven_ticks: i64,
}

impl<'a> View for Sight<'a> {
    type V = SightView;

    closed spec fn view(&self) -> SightView {
        SightView {
            w: self.state@,
            blocked: self.blocked@,
            windows: self.intervals.windows@,
            threat: self.threat@,
            closing: self.closing@,
            sd_prep: self.sd_prep,
            haven_ticks: self.haven_ticks,
        }
    }
}

/// Bombs, the one we consider placing, and living opponents block the way.
pub open spec fn blocked_spec(w: WorldView, my_id: u8, extra: Option<(Cell, u8)>) -> Seq<Cell> {
    bomb_cells_spec(w, extra) + others_from(w, my_id, w.players.len() as int)
}

/// The cells of the living opponents among the first `k` players.
pub open spec fn others_from(w: WorldView, my_id: u8, k: int) -> Seq<Cell>
    decreases k,
{
    if k <= 0 {
        Seq::empty()
    } else {
        let p = w.players[k - 1];
        others_from(w, my_id, k - 1) + if p.id != my_id && p.alive {
            seq![(p.x as i32, p.y as i32)]
        } else {
            Seq::empty()
        }
    }
}

/// Each interior cell with the ticks from now until it is walled in, once
/// the match tick is known and the rules have a sudden death.
pub open spec fn closing_spec(w: WorldView, rules: Rules, now_tick: u32) -> Seq<(Cell, i64)> {
    match match_tick_spec(w, rules, now_tick) {
        Some(now) => if rules.sudden_death_tick < rules.round_time_ticks {
            let order = closing_order_spec(w.width, w.height);
            Seq::new(
                order.len(),
                |i: int|
                    (
                        order[i],
                        (rules.sudden_death_tick + SUDDEN_DEATH_TICKS_PER_CELL * i - now) as i64,
                    ),
            )
        } else {
            Seq::empty()
        },
        None => Seq::empty(),
    }
}

/// Sudden death is near: less than the preparation time away.
pub open spec fn sd_prep_spec(w: WorldView, rules: Rules, now_tick: u32) -> bool {
    match match_tick_spec(w, rules, now_tick) {
        Some(now) => rules.sudden_death_tick < rules.round_time_ticks && rules.sudden_death_tick
            - now <= SD_PREP_TICKS,
        None => false,
    }
}

/// Everything a sight is made of.
pub open spec fn sight_spec(w: WorldView, rules: Rules, my_id: u8, extra: Option<(Cell, u8)>, now_tick: u32) -> SightView {
    SightView {
        w,
        blocked: blocked_spec(w, my_id, extra),
        windows: danger_spec(w, rules, extra, now_tick),
        threat: threat_from(w, my_id, w.players.len() as int),
        closing: closing_spec(w, rules, now_tick),
        sd_prep: sd_prep_spec(w, rules, now_tick),
        haven_ticks: (rules.bomb_fuse_ticks + rules.flame_duration_ticks + 10) as i64,
    }
}

pub open spec fn passable_spec(s: SightView, c: Cell) -> bool {
    free_spec(s.w, c) && !s.blocked.contains(c)
}

pub open spec fn safe_spec(s: SightView, c: Cell, t0: int, t1: int) -> bool {
    safe_in(s.windows, c, t0, t1)
}

/// Safe for a full fuse-plus-flame cycle from `t`.
pub open spec fn haven_spec(s: SightView, c: Cell, t: int) -> bool {
    safe_spec(s, c, t, t + s.haven_ticks)
}

/// A haven outside every enemy bomb line.
pub open spec fn quiet_haven_spec(s: SightView, c: Cell, t: int) -> bool {
    !s.threat.contains(c) && haven_spec(s, c, t)
}

/// Ticks until sudden death walls `c` in: the last entry for it, or "never".
pub open spec fn close_time(cs: Seq<(Cell, i64)>, c: Cell) -> int
    decreases cs.len(),
{
    if cs.len() == 0 {
        INF as int
    } else if cs.last().0 == c {
        cs.last().1 as int
    } else {
        close_time(cs.drop_last(), c)
    }
}

/// A haven the closing border will leave alone for a good while yet.
pub open spec fn deep_haven_spec(s: SightView, c: Cell, t: int) -> bool {
    haven_spec(s, c, t) && close_time(s.closing, c) - t >= SD_DEEP_TICKS
}

/// The numbers a sight holds are small enough to compute with.
pub open spec fn sight_wf(s: SightView) -> bool {
    &&& world_wf(s.w)
    &&& 0 <= s.haven_ticks <= 200000
    &&& forall|i: int| 0 <= i < s.closing.len() ==> tick_in_range(#[trigger] s.closing[i].1 as int)
}

/// Ticks that are small enough to add a few of them to each other.
pub open spec fn tick_in_range(t: int) -> bool {
    -1000000000000 <= t <= 1000000000000
}

impl<'a> Sight<'a> {
    #[verifier::spinoff_prover]
    pub fn new(
        state: &'a World,
        rules: &Rules,
        my_id: u8,
        extra_bomb: Option<(Cell, u8)>,
        now_tick: u32,
    ) -> (s: Sight<'a>)
        requires
            world_wf(state@),
            extra_bomb matches Some((c, _)) ==> cell_in_range(c),
        ensures
            s@ == sight_spec(state@, *rules, my_id, extra_bomb, now_tick),
            sight_wf(s@),
    {
        let mut blocked: Vec<Cell> = Vec::new();
        let mut i: usize = 0;
        while i < state.bombs.len()
            invariant
                i <= state.bombs@.len(),
                blocked@ == bomb_cells_spec(state@, None).take(i as int),
            decreases state.bombs.len() - i,
        {
            blocked.push((state.bombs[i].x as i32, state.bombs[i].y as i32));
            proof {
                assert(blocked@ =~= bomb_cells_spec(state@, None).take(i as int + 1));
            }
            i = i + 1;
        }
        proof {
            assert(bomb_cells_spec(state@, None).take(state.bombs@.len() as int) =~= bomb_cells_spec(
                state@,
                None,
            ));
        }
        match extra_bomb {
            Some((cell, _)) => blocked.push(cell),
            None => {},
        }
        proof {
            assert(blocked@ =~= bomb_cells_spec(state@, extra_bomb));
        }
        let ghost bombs_part = blocked@;
        let mut i: usize = 0;
        while i < state.players.len()
            invariant
                i <= state.players@.len(),
                blocked@ == bombs_part + others_from(state@, my_id, i as int),
            decreases state.players.len() - i,
        {
            let p = state.players[i];
            if p.id != my_id && p.alive {
                blocked.push((p.x as i32, p.y as i32));
            }
            proof {
                assert(blocked@ =~= bombs_part + others_from(state@, my_id, i as int + 1));
            }
            i = i + 1;
        }
        let mut closing: Vec<(Cell, i64)> = Vec::new();
        let mut sd_prep = false;
        match match_tick(state, rules, now_tick) {
            Some(now) => {
                if rules.sudden_death_tick < rules.round_time_ticks {
                    let order = World::closing_order(state.width, state.height);
                    proof {
                        crate::world::lemma_closing_order_len(state.width, state.height);
                    }
                    let mut i: usize = 0;
                    while i < order.len()
                        invariant
                            i <= order@.len(),
                            order@.len() <= 65536,
                            order@ == closing_order_spec(state@.width, state@.height),
                            -5000000000 <= now <= 5000000000,
                            closing@ == closing_spec(state@, *rules, now_tick).take(i as int),
                            match_tick_spec(state@, *rules, now_tick) == Some(now as int),
                            rules.sudden_death_tick < rules.round_time_ticks,
                        decreases order.len() - i,
                    {
                        closing.push(
                            (
                                order[i],
                                rules.sudden_death_tick as i64 + SUDDEN_DEATH_TICKS_PER_CELL as i64
                                    * i as i64 - now,
                            ),
                        );
                        proof {
                            assert(closing@ =~= closing_spec(state@, *rules, now_tick).take(
                                i as int + 1,
                            ));
                        }
                        i = i + 1;
                    }
                    proof {
                        assert(closing_spec(state@, *rules, now_tick).take(order@.len() as int)
                            =~= closing_spec(state@, *rules, now_tick));
                    }
                    sd_prep = rules.sudden_death_tick as i64 - now <= SD_PREP_TICKS;
                } else {
                    assert(closing@ =~= closing_spec(state@, *rules, now_tick));
                }
            },
            None => {
                assert(closing@ =~= closing_spec(state@, *rules, now_tick));
            },
        }
        let intervals = danger_intervals(state, rules, extra_bomb, now_tick);
        let threat = threat_cells(state, my_id);
        Sight {
            state,
            blocked,
            intervals,
            threat,
            closing,
            sd_prep,
            haven_ticks: rules.bomb_fuse_ticks as i64 + rules.flame_duration_ticks as i64 + 10,
        }
    }

    /// Free and not blocked.
    pub fn passable(&self, c: Cell) -> (r: bool)
        requires
            world_wf(self@.w),
        ensures
            r == passable_spec(self@, c),
    {
        free(self.state, c) && !cell_in(&self.blocked, c)
    }

    /// No danger on `c` from `t0` to `t1`.
    pub fn safe(&self, c: Cell, t0: i64, t1: i64) -> (r: bool)
        ensures
            r == safe_spec(self@, c, t0 as int, t1 as int),
    {
        self.intervals.safe(c, t0, t1)
    }

    pub fn haven(&self, c: Cell, t: i64) -> (r: bool)
        requires
            tick_in_range(t as int),
            sight_wf(self@),
        ensures
            r == haven_spec(self@, c, t as int),
    {
        self.safe(c, t, t + self.haven_ticks)
    }

    pub fn quiet_haven(&self, c: Cell, t: i64) -> (r: bool)
        requires
            tick_in_range(t as int),
            sight_wf(self@),
        ensures
            r == quiet_haven_spec(self@, c, t as int),
    {
        !cell_in(&self.threat, c) && self.haven(c, t)
    }

    /// Ticks until sudden death walls the cell in (`INF`: never, or unknown).
    pub fn time_to_close(&self, c: Cell) -> (r: i64)
        requires
            sight_wf(self@),
        ensures
            r == close_time(self@.closing, c),
            tick_in_range(r as int),
    {
        let mut i: usize = self.closing.len();
        assert(self.closing@.take(i as int) =~= self.closing@);
        while i > 0
            invariant
                i <= self.closing@.len(),
                close_time(self.closing@, c) == close_time(self.closing@.take(i as int), c),
                sight_wf(self@),
            decreases i,
        {
            let e = self.closing[i - 1];
            proof {
                let t = self.closing@.take(i as int);
                assert(t.drop_last() =~= self.closing@.take(i as int - 1));
                assert(t.last() == e);
                assert(tick_in_range(self@.closing[i as int - 1].1 as int));
            }
            if e.0.0 == c.0 && e.0.1 == c.1 {
                return e.1;
            }
            i = i - 1;
        }
        INF
    }

    pub fn deep_haven(&self, c: Cell, t: i64) -> (r: bool)
        requires
            tick_in_range(t as int),
            sight_wf(self@),
        ensures
            r == deep_haven_spec(self@, c, t as int),
    {
        self.haven(c, t) && self.time_to_close(c) - t >= SD_DEEP_TICKS
    }
}


// -- time-aware search -----------------------------------------------------------

/// Which moves a search may take.
#[derive(Clone, Copy, Debug, PartialEq, Eq, Structural)]
pub enum Moves {
    /// Step onto a passable cell that stays safe for the step, or wait where
    /// that is safe.
    Walk,
    /// Step only, never wait.
    StepOnly,
    /// Step only onto havens; wait where that is safe.
    ThroughHavens,
}

/// The tick at which step `k` of a plan begins.
pub open spec fn t_at(t_free: int, step: int, k: int) -> int {
    t_free + k * step
}

/// The neighbour of `c` in direction `d`.
pub open spec fn neighbour(c: Cell, d: int) -> Cell {
    ((c.0 + dir_spec(d).0) as i32, (c.1 + dir_spec(d).1) as i32)
}

/// Entering `n` with a step that begins at `t`.
pub open spec fn enter_ok(s: SightView, moves: Moves, n: Cell, t: int, step: int) -> bool {
    passable_spec(s, n) && match moves {
        Moves::ThroughHavens => haven_spec(s, n, t),
        _ => safe_spec(s, n, t, t + step),
    }
}

/// Waiting on `c` for one step that begins at `t`.
pub open spec fn wait_ok(s: SightView, moves: Moves, c: Cell, t: int, step: int) -> bool {
    moves != Moves::StepOnly && safe_spec(s, c, t, t + step)
}

/// One move of a plan, begun at `t`: a step to a neighbour, or waiting.
pub open spec fn step_ok(s: SightView, moves: Moves, prev: Cell, next: Cell, t: int, step: int) -> bool {
    ||| next == neighbour(prev, 0) && enter_ok(s, moves, next, t, step)
    ||| next == neighbour(prev, 1) && enter_ok(s, moves, next, t, step)
    ||| next == neighbour(prev, 2) && enter_ok(s, moves, next, t, step)
    ||| next == neighbour(prev, 3) && enter_ok(s, moves, next, t, step)
    ||| next == prev && wait_ok(s, moves, prev, t, step)
}

/// Where move `i` of a plan begins.
pub open spec fn prev_of(start: Cell, q: Seq<Cell>, i: int) -> Cell {
    if i == 0 {
        start
    } else {
        q[i - 1]
    }
}

/// The cell a plan ends on.
pub open spec fn walk_end(start: Cell, q: Seq<Cell>) -> Cell {
    if q.len() == 0 {
        start
    } else {
        q.last()
    }
}

/// A plan of at most `K_MAX` moves from `start`, every move allowed at the
/// tick it begins.
pub open spec fn walk_from(s: SightView, moves: Moves, start: Cell, t_free: int, step: int, q: Seq<Cell>) -> bool {
    &&& q.len() <= K_MAX
    &&& forall|i: int|
        0 <= i < q.len() ==> #[trigger] step_ok(
            s,
            moves,
            prev_of(start, q, i),
            q[i],
            t_at(t_free, step, i),
            step,
        )
}

/// A search tree: each node is a cell, its depth, and the index of the node
/// it was reached from. The root is node 0, the start at depth 0; depths
/// never decrease along the list.
pub open spec fn tree_ok(s: SightView, moves: Moves, start: Cell, t_free: int, step: int, nodes: Seq<(Cell, usize, usize)>) -> bool {
    &&& nodes.len() >= 1
    &&& nodes[0] == (start, 0usize, 0usize)
    &&& forall|m: int|
        #![trigger nodes[m]]
        1 <= m < nodes.len() ==> {
            let p = nodes[m].2 as int;
            &&& p < m
            &&& nodes[p].1 + 1 == nodes[m].1
            &&& step_ok(s, moves, nodes[p].0, nodes[m].0, t_at(t_free, step, nodes[p].1 as int), step)
        }
    &&& forall|a: int, b: int| 0 <= a <= b < nodes.len() ==> nodes[a].1 <= nodes[b].1
    &&& forall|m: int| 0 <= m < nodes.len() ==> nodes[m].1 <= K_MAX
}

/// Whether a node at or after `from` stands on `c`.
pub open spec fn seen_spec(nodes: Seq<(Cell, usize, usize)>, from: int, c: Cell) -> bool {
    exists|x: int| from <= x < nodes.len() && nodes[x].0 == c
}

/// `c` added as a child of node `parent`, one level below `k`, where the
/// move is allowed and no node of the new level, which begins at `end`,
/// stands on `c` yet.
pub open spec fn add_child(nodes: Seq<(Cell, usize, usize)>, end: int, c: Cell, k: int, parent: int, ok: bool) -> Seq<(Cell, usize, usize)> {
    if ok && !seen_spec(nodes, end, c) {
        nodes.push((c, (k + 1) as usize, parent as usize))
    } else {
        nodes
    }
}

/// The steps of node `idx` in the directions below `d` added as children.
pub open spec fn expand_dirs(s: SightView, moves: Moves, t_free: int, step: int, nodes: Seq<(Cell, usize, usize)>, idx: int, end: int, k: int, d: int) -> Seq<(Cell, usize, usize)>
    decreases d,
{
    if d <= 0 {
        nodes
    } else {
        let n = neighbour(nodes[idx].0, d - 1);
        add_child(
            expand_dirs(s, moves, t_free, step, nodes, idx, end, k, d - 1),
            end,
            n,
            k,
            idx,
            enter_ok(s, moves, n, t_at(t_free, step, k), step),
        )
    }
}

/// Node `idx`, at depth `k`, expanded: its steps up, down, left and right,
/// then waiting.
pub open spec fn expand_spec(s: SightView, moves: Moves, t_free: int, step: int, nodes: Seq<(Cell, usize, usize)>, idx: int, end: int, k: int) -> Seq<(Cell, usize, usize)> {
    let c = nodes[idx].0;
    add_child(
        expand_dirs(s, moves, t_free, step, nodes, idx, end, k, 4),
        end,
        c,
        k,
        idx,
        wait_ok(s, moves, c, t_at(t_free, step, k), step),
    )
}

/// The nodes from `idx` up to `end`, all at depth `k`, expanded in order.
pub open spec fn level_spec(s: SightView, moves: Moves, t_free: int, step: int, nodes: Seq<(Cell, usize, usize)>, idx: int, end: int, k: int) -> Seq<(Cell, usize, usize)>
    decreases end - idx,
{
    if idx >= end {
        nodes
    } else {
        level_spec(s, moves, t_free, step, expand_spec(s, moves, t_free, step, nodes, idx, end, k), idx + 1, end, k)
    }
}

/// The levels from depth `k`, whose nodes begin at `begin`, expanded in turn
/// down to `K_MAX`.
pub open spec fn tree_from(s: SightView, moves: Moves, t_free: int, step: int, nodes: Seq<(Cell, usize, usize)>, begin: int, k: int) -> Seq<(Cell, usize, usize)>
    decreases K_MAX - k,
{
    if k >= K_MAX {
        nodes
    } else {
        tree_from(
            s,
            moves,
            t_free,
            step,
            level_spec(s, moves, t_free, step, nodes, begin, nodes.len() as int, k),
            nodes.len() as int,
            k + 1,
        )
    }
}

/// The breadth-first search tree from `start`: nodes in the order found,
/// each with its depth and the index of its parent.
pub open spec fn bfs_tree(s: SightView, moves: Moves, start: Cell, t_free: int, step: int) -> Seq<(Cell, usize, usize)> {
    tree_from(s, moves, t_free, step, seq![(start, 0usize, 0usize)], 0, 0)
}

/// Some node at depth `l` stands on `c`.
pub open spec fn in_level(nodes: Seq<(Cell, usize, usize)>, l: int, c: Cell) -> bool {
    exists|x: int| 0 <= x < nodes.len() && nodes[x].1 == l && nodes[x].0 == c
}

/// Every move from node `m` leads to a node one deeper.
pub open spec fn expanded(s: SightView, moves: Moves, t_free: int, step: int, nodes: Seq<(Cell, usize, usize)>, m: int) -> bool {
    let c = nodes[m].0;
    let l = nodes[m].1 as int;
    let t = t_at(t_free, step, l);
    &&& forall|d: int|
        0 <= d < 4 && enter_ok(s, moves, neighbour(c, d), t, step) ==> in_level(
            nodes,
            l + 1,
            #[trigger] neighbour(c, d),
        )
    &&& wait_ok(s, moves, c, t, step) ==> in_level(nodes, l + 1, c)
}

/// The cells from the root to node `m`, the root itself left out.
pub open spec fn tree_path(nodes: Seq<(Cell, usize, usize)>, m: int) -> Seq<Cell>
    decreases m,
{
    if m <= 0 || m >= nodes.len() || nodes[m].2 >= m {
        Seq::empty()
    } else {
        tree_path(nodes, nodes[m].2 as int).push(nodes[m].0)
    }
}

proof fn lemma_walk_push(s: SightView, moves: Moves, start: Cell, t_free: int, step: int, q: Seq<Cell>, c: Cell)
    requires
        walk_from(s, moves, start, t_free, step, q),
        q.len() < K_MAX,
        step_ok(s, moves, walk_end(start, q), c, t_at(t_free, step, q.len() as int), step),
    ensures
        walk_from(s, moves, start, t_free, step, q.push(c)),
        walk_end(start, q.push(c)) == c,
{
    let q2 = q.push(c);
    assert forall|i: int| 0 <= i < q2.len() implies #[trigger] step_ok(
        s,
        moves,
        prev_of(start, q2, i),
        q2[i],
        t_at(t_free, step, i),
        step,
    ) by {
        if i < q.len() {
            assert(q2[i] == q[i]);
            if i > 0 {
                assert(q2[i - 1] == q[i - 1]);
            }
            assert(prev_of(start, q2, i) == prev_of(start, q, i));
            assert(step_ok(s, moves, prev_of(start, q, i), q[i], t_at(t_free, step, i), step));
        } else {
            assert(prev_of(start, q2, i) == walk_end(start, q));
        }
    }
}

/// The path to any node of a search tree is a plan that ends on the node's
/// cell after as many moves as the node is deep.
proof fn lemma_tree_path(s: SightView, moves: Moves, start: Cell, t_free: int, step: int, nodes: Seq<(Cell, usize, usize)>, m: int)
    requires
        tree_ok(s, moves, start, t_free, step, nodes),
        0 <= m < nodes.len(),
    ensures
        walk_from(s, moves, start, t_free, step, tree_path(nodes, m)),
        tree_path(nodes, m).len() == nodes[m].1,
        walk_end(start, tree_path(nodes, m)) == nodes[m].0,
    decreases m,
{
    if m == 0 {
        assert(tree_path(nodes, m).len() == 0);
    } else {
        let p = nodes[m].2 as int;
        assert(p < m);
        lemma_tree_path(s, moves, start, t_free, step, nodes, p);
        lemma_walk_push(s, moves, start, t_free, step, tree_path(nodes, p), nodes[m].0);
    }
}

/// Every plan ends on a node of a fully expanded search tree, at its depth.
proof fn lemma_tree_complete(s: SightView, moves: Moves, start: Cell, t_free: int, step: int, nodes: Seq<(Cell, usize, usize)>, q: Seq<Cell>)
    requires
        tree_ok(s, moves, start, t_free, step, nodes),
        forall|m: int|
            0 <= m < nodes.len() && nodes[m].1 < K_MAX ==> #[trigger] expanded(s, moves, t_free, step, nodes, m),
        walk_from(s, moves, start, t_free, step, q),
    ensures
        in_level(nodes, q.len() as int, walk_end(start, q)),
    decreases q.len(),
{
    if q.len() == 0 {
        assert(nodes[0].1 == 0 && nodes[0].0 == start);
    } else {
        let q0 = q.drop_last();
        assert forall|i: int| 0 <= i < q0.len() implies #[trigger] step_ok(
            s,
            moves,
            prev_of(start, q0, i),
            q0[i],
            t_at(t_free, step, i),
            step,
        ) by {
            assert(q0[i] == q[i]);
            if i > 0 {
                assert(q0[i - 1] == q[i - 1]);
            }
            assert(step_ok(s, moves, prev_of(start, q, i), q[i], t_at(t_free, step, i), step));
        }
        lemma_tree_complete(s, moves, start, t_free, step, nodes, q0);
        let x = choose|x: int|
            0 <= x < nodes.len() && nodes[x].1 == q0.len() && nodes[x].0 == walk_end(start, q0);
        assert(expanded(s, moves, t_free, step, nodes, x));
        let i = q.len() - 1;
        assert(step_ok(s, moves, prev_of(start, q, i), q[i], t_at(t_free, step, i), step));
        assert(walk_end(start, q0) == prev_of(start, q, i));
        let c = walk_end(start, q0);
        let t = t_at(t_free, step, i);
        if q.last() == neighbour(c, 0) && enter_ok(s, moves, q.last(), t, step) {
            assert(in_level(nodes, i + 1, neighbour(c, 0)));
        } else if q.last() == neighbour(c, 1) && enter_ok(s, moves, q.last(), t, step) {
            assert(in_level(nodes, i + 1, neighbour(c, 1)));
        } else if q.last() == neighbour(c, 2) && enter_ok(s, moves, q.last(), t, step) {
            assert(in_level(nodes, i + 1, neighbour(c, 2)));
        } else if q.last() == neighbour(c, 3) && enter_ok(s, moves, q.last(), t, step) {
            assert(in_level(nodes, i + 1, neighbour(c, 3)));
        }
    }
}

proof fn lemma_push_in_level(nodes: Seq<(Cell, usize, usize)>, e: (Cell, usize, usize), l: int, c: Cell)
    requires
        in_level(nodes, l, c),
    ensures
        in_level(nodes.push(e), l, c),
{
    let x = choose|x: int| 0 <= x < nodes.len() && nodes[x].1 == l && nodes[x].0 == c;
    assert(nodes.push(e)[x] == nodes[x]);
}

proof fn lemma_push_keeps_expanded(s: SightView, moves: Moves, t_free: int, step: int, nodes: Seq<(Cell, usize, usize)>, e: (Cell, usize, usize), m: int)
    requires
        0 <= m < nodes.len(),
        expanded(s, moves, t_free, step, nodes, m),
    ensures
        expanded(s, moves, t_free, step, nodes.push(e), m),
{
    let n2 = nodes.push(e);
    assert(n2[m] == nodes[m]);
    let c = nodes[m].0;
    let l = nodes[m].1 as int;
    let t = t_at(t_free, step, l);
    assert forall|d: int|
        0 <= d < 4 && enter_ok(s, moves, neighbour(c, d), t, step) implies in_level(
        n2,
        l + 1,
        #[trigger] neighbour(c, d),
    ) by {
        lemma_push_in_level(nodes, e, l + 1, neighbour(c, d));
    }
    if wait_ok(s, moves, c, t, step) {
        lemma_push_in_level(nodes, e, l + 1, c);
    }
}

/// Some node from `from` on stands on `c`.
fn seen_from(nodes: &Vec<(Cell, usize, usize)>, from: usize, c: Cell) -> (r: bool)
    requires
        from <= nodes@.len(),
    ensures
        r == exists|x: int| from <= x < nodes@.len() && nodes@[x].0 == c,
{
    let mut i = from;
    while i < nodes.len()
        invariant
            from <= i <= nodes@.len(),
            forall|x: int| from <= x < i ==> nodes@[x].0 != c,
        decreases nodes.len() - i,
    {
        if nodes[i].0.0 == c.0 && nodes[i].0.1 == c.1 {
            assert(nodes@[i as int].0 == c);
            return true;
        }
        i = i + 1;
    }
    false
}

/// Entering `n` with a step that begins at `t`.
fn can_enter(sight: &Sight, moves: Moves, n: Cell, t: i64, step: i64) -> (r: bool)
    requires
        sight_wf(sight@),
        tick_in_range(t as int),
        0 <= step <= 1000,
    ensures
        r == enter_ok(sight@, moves, n, t as int, step as int),
{
    if !sight.passable(n) {
        return false;
    }
    match moves {
        Moves::ThroughHavens => sight.haven(n, t),
        _ => sight.safe(n, t, t + step),
    }
}

/// Nodes only added at the end keep every node found.
proof fn lemma_extend_in_level(nodes: Seq<(Cell, usize, usize)>, more: Seq<(Cell, usize, usize)>, l: int, c: Cell)
    requires
        in_level(nodes, l, c),
        more.len() >= nodes.len(),
        forall|x: int| 0 <= x < nodes.len() ==> more[x] == nodes[x],
    ensures
        in_level(more, l, c),
{
    let x = choose|x: int| 0 <= x < nodes.len() && nodes[x].1 == l && nodes[x].0 == c;
    assert(more[x] == nodes[x]);
}

proof fn lemma_extend_keeps_expanded(s: SightView, moves: Moves, t_free: int, step: int, nodes: Seq<(Cell, usize, usize)>, more: Seq<(Cell, usize, usize)>, m: int)
    requires
        0 <= m < nodes.len(),
        expanded(s, moves, t_free, step, nodes, m),
        more.len() >= nodes.len(),
        forall|x: int| 0 <= x < nodes.len() ==> more[x] == nodes[x],
    ensures
        expanded(s, moves, t_free, step, more, m),
{
    assert(more[m] == nodes[m]);
    let c = nodes[m].0;
    let l = nodes[m].1 as int;
    let t = t_at(t_free, step, l);
    assert forall|d: int|
        0 <= d < 4 && enter_ok(s, moves, neighbour(c, d), t, step) implies in_level(
        more,
        l + 1,
        #[trigger] neighbour(c, d),
    ) by {
        lemma_extend_in_level(nodes, more, l + 1, neighbour(c, d));
    }
    if wait_ok(s, moves, c, t, step) {
        lemma_extend_in_level(nodes, more, l + 1, c);
    }
}

/// Adds node `e` at the end of a search tree, one deeper than its parent.
proof fn lemma_push_node(s: SightView, moves: Moves, start: Cell, t_free: int, step: int, nodes: Seq<(Cell, usize, usize)>, e: (Cell, usize, usize))
    requires
        tree_ok(s, moves, start, t_free, step, nodes),
        e.2 < nodes.len(),
        nodes[e.2 as int].1 + 1 == e.1,
        e.1 <= K_MAX,
        forall|m: int| 0 <= m < nodes.len() ==> nodes[m].1 <= e.1,
        step_ok(s, moves, nodes[e.2 as int].0, e.0, t_at(t_free, step, nodes[e.2 as int].1 as int), step),
    ensures
        tree_ok(s, moves, start, t_free, step, nodes.push(e)),
{
    let n2 = nodes.push(e);
    assert forall|m: int| #![trigger n2[m]] 1 <= m < n2.len() implies {
        let p = n2[m].2 as int;
        &&& p < m
        &&& n2[p].1 + 1 == n2[m].1
        &&& step_ok(s, moves, n2[p].0, n2[m].0, t_at(t_free, step, n2[p].1 as int), step)
    } by {
        if m < nodes.len() {
            assert(n2[m] == nodes[m]);
            assert(n2[nodes[m].2 as int] == nodes[nodes[m].2 as int]);
        } else {
            assert(n2[m] == e);
            assert(n2[e.2 as int] == nodes[e.2 as int]);
        }
    }
    assert forall|a: int, b: int| 0 <= a <= b < n2.len() implies n2[a].1 <= n2[b].1 by {
        if b < nodes.len() {
            assert(n2[a] == nodes[a] && n2[b] == nodes[b]);
        } else if a < nodes.len() {
            assert(n2[a] == nodes[a]);
        }
    }
}

/// Every move from node `idx` (at depth `k`, its moves beginning at `t`)
/// that leads to a cell not yet found one deeper adds that cell.
fn expand_node(
    sight: &Sight,
    nodes: &mut Vec<(Cell, usize, usize)>,
    start: Cell,
    t_free: i64,
    step: i64,
    moves: Moves,
    idx: usize,
    end: usize,
    k: usize,
    t: i64,
)
    requires
        sight_wf(sight@),
        0 <= t_free <= 1000,
        0 <= step <= 1000,
        k < K_MAX,
        t == t_at(t_free as int, step as int, k as int),
        0 <= t <= 21000,
        tree_ok(sight@, moves, start, t_free as int, step as int, old(nodes)@),
        idx < end <= old(nodes)@.len(),
        old(nodes)@[idx as int].1 == k,
        forall|m: int| 0 <= m < old(nodes)@.len() ==> #[trigger] old(nodes)@[m].1 <= k + 1,
        forall|m: int| end <= m < old(nodes)@.len() ==> #[trigger] old(nodes)@[m].1 == k + 1,
        forall|m: int| 0 <= m < old(nodes)@.len() ==> cell_in_range(#[trigger] old(nodes)@[m].0),
    ensures
        tree_ok(sight@, moves, start, t_free as int, step as int, final(nodes)@),
        final(nodes)@.len() >= old(nodes)@.len(),
        forall|x: int| 0 <= x < old(nodes)@.len() ==> final(nodes)@[x] == old(nodes)@[x],
        forall|m: int|
            old(nodes)@.len() <= m < final(nodes)@.len() ==> #[trigger] final(nodes)@[m].1 == k + 1,
        expanded(sight@, moves, t_free as int, step as int, final(nodes)@, idx as int),
        forall|m: int| 0 <= m < final(nodes)@.len() ==> cell_in_range(#[trigger] final(nodes)@[m].0),
        final(nodes)@ == expand_spec(
            sight@,
            moves,
            t_free as int,
            step as int,
            old(nodes)@,
            idx as int,
            end as int,
            k as int,
        ),
{
    let ghost s = sight@;
    let ghost orig = nodes@;
    let cell = nodes[idx].0;
    let mut d: usize = 0;
    while d < 4
        invariant
            s == sight@,
            sight_wf(s),
            0 <= t_free <= 1000,
            0 <= step <= 1000,
            k < K_MAX,
            t == t_at(t_free as int, step as int, k as int),
            0 <= t <= 21000,
            tree_ok(s, moves, start, t_free as int, step as int, nodes@),
            idx < end <= orig.len(),
            nodes@.len() >= orig.len(),
            forall|x: int| 0 <= x < orig.len() ==> nodes@[x] == orig[x],
            orig[idx as int].1 == k,
            d <= 4,
            cell == orig[idx as int].0,
            forall|m: int| 0 <= m < nodes@.len() ==> #[trigger] nodes@[m].1 <= k + 1,
            forall|m: int| end <= m < nodes@.len() ==> #[trigger] nodes@[m].1 == k + 1,
            forall|e: int|
                0 <= e < d && enter_ok(s, moves, neighbour(cell, e), t as int, step as int) ==> in_level(
                    nodes@,
                    k + 1,
                    #[trigger] neighbour(cell, e),
                ),
            forall|m: int| 0 <= m < nodes@.len() ==> cell_in_range(#[trigger] nodes@[m].0),
            nodes@ == expand_dirs(s, moves, t_free as int, step as int, orig, idx as int, end as int, k as int, d as int),
        decreases 4 - d,
    {
        let dd = dir(d);
        let n: Cell = (cell.0 + dd.0, cell.1 + dd.1);
        assert(n == neighbour(cell, d as int));
        if seen_from(nodes, end, n) {
            proof {
                let x = choose|x: int| end <= x < nodes@.len() && nodes@[x].0 == n;
                assert(nodes@[x].1 == k + 1);
            }
        } else if can_enter(sight, moves, n, t, step) {
            let ghost before = nodes@;
            let e = (n, k + 1, idx);
            proof {
                assert(nodes@[idx as int] == orig[idx as int]);
                lemma_push_node(s, moves, start, t_free as int, step as int, nodes@, e);
                assert forall|f: int|
                    0 <= f < d && enter_ok(s, moves, neighbour(cell, f), t as int, step as int) implies in_level(
                    before.push(e),
                    k + 1,
                    #[trigger] neighbour(cell, f),
                ) by {
                    lemma_push_in_level(before, e, k + 1, neighbour(cell, f));
                }
            }
            nodes.push(e);
            proof {
                assert(nodes@[nodes@.len() - 1] == e);
                assert(in_level(nodes@, k + 1, n));
            }
        }
        d = d + 1;
    }
    let ghost mid = nodes@;
    if moves != Moves::StepOnly && !seen_from(nodes, end, cell) && sight.safe(cell, t, t + step) {
        let e = (cell, k + 1, idx);
        proof {
            assert(nodes@[idx as int] == orig[idx as int]);
            lemma_push_node(s, moves, start, t_free as int, step as int, nodes@, e);
            assert forall|f: int|
                0 <= f < 4 && enter_ok(s, moves, neighbour(cell, f), t as int, step as int) implies in_level(
                mid.push(e),
                k + 1,
                #[trigger] neighbour(cell, f),
            ) by {
                lemma_push_in_level(mid, e, k + 1, neighbour(cell, f));
            }
        }
        nodes.push(e);
        proof {
            assert(nodes@[nodes@.len() - 1] == e);
            assert(in_level(nodes@, k + 1, cell));
        }
    }
    proof {
        assert(nodes@[idx as int] == orig[idx as int]);
        if wait_ok(s, moves, cell, t as int, step as int) {
            if exists|x: int| end <= x < mid.len() && mid[x].0 == cell {
                let x = choose|x: int| end <= x < mid.len() && mid[x].0 == cell;
                assert(mid[x].1 == k + 1);
                lemma_extend_in_level(mid, nodes@, k + 1, cell);
            }
        }
        assert forall|f: int|
            0 <= f < 4 && enter_ok(s, moves, neighbour(cell, f), t as int, step as int) implies in_level(
            nodes@,
            k + 1,
            #[trigger] neighbour(cell, f),
        ) by {
            lemma_extend_in_level(mid, nodes@, k + 1, neighbour(cell, f));
        }
    }
}

/// What the levels of a search tree look like after node `idx` was expanded.
proof fn lemma_after_expand(
    s: SightView,
    moves: Moves,
    t_free: int,
    step: int,
    before: Seq<(Cell, usize, usize)>,
    after: Seq<(Cell, usize, usize)>,
    begin: int,
    end: int,
    idx: int,
    k: int,
)
    requires
        0 <= begin <= idx < end <= before.len(),
        after.len() >= before.len(),
        forall|x: int| 0 <= x < before.len() ==> after[x] == before[x],
        forall|m: int| before.len() <= m < after.len() ==> #[trigger] after[m].1 == k + 1,
        forall|m: int| 0 <= m < begin ==> #[trigger] before[m].1 < k,
        forall|m: int| begin <= m < end ==> #[trigger] before[m].1 == k,
        forall|m: int| end <= m < before.len() ==> #[trigger] before[m].1 == k + 1,
        forall|m: int| 0 <= m < idx ==> #[trigger] expanded(s, moves, t_free, step, before, m),
        expanded(s, moves, t_free, step, after, idx),
    ensures
        forall|m: int| 0 <= m < begin ==> #[trigger] after[m].1 < k,
        forall|m: int| begin <= m < end ==> #[trigger] after[m].1 == k,
        forall|m: int| end <= m < after.len() ==> #[trigger] after[m].1 == k + 1,
        forall|m: int| 0 <= m < idx + 1 ==> #[trigger] expanded(s, moves, t_free, step, after, m),
{
    assert forall|m: int| 0 <= m < idx + 1 implies #[trigger] expanded(s, moves, t_free, step, after, m) by {
        if m < idx {
            lemma_extend_keeps_expanded(s, moves, t_free, step, before, after, m);
        }
    }
    assert forall|m: int| end <= m < after.len() implies #[trigger] after[m].1 == k + 1 by {
        if m < before.len() {
            assert(after[m] == before[m]);
        }
    }
    assert forall|m: int| 0 <= m < begin implies #[trigger] after[m].1 < k by {
        assert(after[m] == before[m]);
    }
    assert forall|m: int| begin <= m < end implies #[trigger] after[m].1 == k by {
        assert(after[m] == before[m]);
    }
}

/// Breadth-first over (cell, step), waiting counted as a move, every node
/// expanded down to `K_MAX`. A cell is entered once per depth, from the first
/// node that reaches it: steps in the order up, down, left, right, then
/// waiting.
#[verifier::spinoff_prover]
#[verifier::rlimit(50)]
fn explore(sight: &Sight, start: Cell, t_free: i64, step: i64, moves: Moves) -> (nodes: Vec<(Cell, usize, usize)>)
    requires
        sight_wf(sight@),
        cell_in_range(start),
        0 <= t_free <= 1000,
        0 <= step <= 1000,
    ensures
        tree_ok(sight@, moves, start, t_free as int, step as int, nodes@),
        forall|m: int|
            0 <= m < nodes@.len() && nodes@[m].1 < K_MAX ==> #[trigger] expanded(
                sight@,
                moves,
                t_free as int,
                step as int,
                nodes@,
                m,
            ),
        forall|m: int| 0 <= m < nodes@.len() ==> cell_in_range(#[trigger] nodes@[m].0),
        nodes@ == bfs_tree(sight@, moves, start, t_free as int, step as int),
{
    let ghost s = sight@;
    let ghost tree = bfs_tree(s, moves, start, t_free as int, step as int);
    let mut nodes: Vec<(Cell, usize, usize)> = Vec::new();
    nodes.push((start, 0, 0));
    let mut begin: usize = 0;
    let mut k: usize = 0;
    assert(nodes@ =~= seq![(start, 0usize, 0usize)]);
    while k < K_MAX
        invariant
            tree == bfs_tree(s, moves, start, t_free as int, step as int),
            tree_from(s, moves, t_free as int, step as int, nodes@, begin as int, k as int) == tree,
            s == sight@,
            sight_wf(s),
            cell_in_range(start),
            0 <= t_free <= 1000,
            0 <= step <= 1000,
            k <= K_MAX,
            tree_ok(s, moves, start, t_free as int, step as int, nodes@),
            begin <= nodes@.len(),
            forall|m: int| 0 <= m < begin ==> #[trigger] nodes@[m].1 < k,
            forall|m: int| begin <= m < nodes@.len() ==> #[trigger] nodes@[m].1 == k,
            forall|m: int|
                0 <= m < begin ==> #[trigger] expanded(s, moves, t_free as int, step as int, nodes@, m),
            forall|m: int| 0 <= m < nodes@.len() ==> cell_in_range(#[trigger] nodes@[m].0),
        decreases K_MAX - k,
    {
        let end = nodes.len();
        assert(0 <= k as int * step <= 20000) by (nonlinear_arith)
            requires
                k <= 20,
                0 <= step <= 1000,
        ;
        let t: i64 = t_free + k as i64 * step;
        let mut idx = begin;
        while idx < end
            invariant
                tree_from(
                    s,
                    moves,
                    t_free as int,
                    step as int,
                    level_spec(s, moves, t_free as int, step as int, nodes@, idx as int, end as int, k as int),
                    end as int,
                    k + 1,
                ) == tree,
                s == sight@,
                sight_wf(s),
                0 <= t_free <= 1000,
                0 <= step <= 1000,
                k < K_MAX,
                t == t_at(t_free as int, step as int, k as int),
                0 <= t <= 21000,
                tree_ok(s, moves, start, t_free as int, step as int, nodes@),
                begin <= idx <= end,
                end <= nodes@.len(),
                forall|m: int| 0 <= m < begin ==> #[trigger] nodes@[m].1 < k,
                forall|m: int| begin <= m < end ==> #[trigger] nodes@[m].1 == k,
                forall|m: int| end <= m < nodes@.len() ==> #[trigger] nodes@[m].1 == k + 1,
                forall|m: int|
                    0 <= m < idx ==> #[trigger] expanded(s, moves, t_free as int, step as int, nodes@, m),
                forall|m: int| 0 <= m < nodes@.len() ==> cell_in_range(#[trigger] nodes@[m].0),
            decreases end - idx,
        {
            let ghost before = nodes@;
            proof {
                assert forall|m: int| 0 <= m < nodes@.len() implies #[trigger] nodes@[m].1 <= k + 1 by {
                    if m < begin {
                    } else if m < end {
                    } else {
                    }
                }
            }
            expand_node(sight, &mut nodes, start, t_free, step, moves, idx, end, k, t);
            proof {
                lemma_after_expand(s, moves, t_free as int, step as int, before, nodes@, begin as int, end as int, idx as int, k as int);
            }
            idx = idx + 1;
        }
        begin = end;
        k = k + 1;
    }
    proof {
        assert forall|m: int|
            0 <= m < nodes@.len() && nodes@[m].1 < K_MAX implies #[trigger] expanded(
            s,
            moves,
            t_free as int,
            step as int,
            nodes@,
            m,
        ) by {
            if m >= begin {
                assert(nodes@[m].1 == K_MAX);
            }
        }
    }
    nodes
}


/// `s` backwards.
pub open spec fn rev_of(s: Seq<Cell>) -> Seq<Cell> {
    Seq::new(s.len(), |i: int| s[s.len() - 1 - i])
}

/// The cells from the root of a search tree to `node`, the root left out.
pub fn extract_path(nodes: &Vec<(Cell, usize, usize)>, node: usize) -> (path: Vec<Cell>)
    ensures
        path@ == tree_path(nodes@, node as int),
{
    let mut rev: Vec<Cell> = Vec::new();
    let mut m = node;
    while m > 0 && m < nodes.len() && nodes[m].2 < m
        invariant
            tree_path(nodes@, node as int) == tree_path(nodes@, m as int) + rev_of(rev@),
        decreases m,
    {
        let ghost before = rev@;
        rev.push(nodes[m].0);
        proof {
            assert(rev_of(rev@) =~= seq![nodes@[m as int].0] + rev_of(before));
            assert(tree_path(nodes@, m as int) == tree_path(nodes@, nodes@[m as int].2 as int).push(
                nodes@[m as int].0,
            ));
            assert(tree_path(nodes@, nodes@[m as int].2 as int).push(nodes@[m as int].0) + rev_of(
                before,
            ) =~= tree_path(nodes@, nodes@[m as int].2 as int) + rev_of(rev@));
        }
        m = nodes[m].2;
    }
    proof {
        assert(tree_path(nodes@, m as int) =~= Seq::<Cell>::empty());
        assert(tree_path(nodes@, node as int) =~= rev_of(rev@));
    }
    let mut path: Vec<Cell> = Vec::new();
    let mut j: usize = rev.len();
    while j > 0
        invariant
            j <= rev@.len(),
            path@ == rev_of(rev@).take(rev@.len() - j),
        decreases j,
    {
        path.push(rev[j - 1]);
        proof {
            assert(path@ =~= rev_of(rev@).take(rev@.len() - j + 1));
        }
        j = j - 1;
    }
    proof {
        assert(rev_of(rev@).take(rev@.len() as int) =~= rev_of(rev@));
    }
    path
}

proof fn lemma_path_cells_in_range(nodes: Seq<(Cell, usize, usize)>, m: int, i: int)
    requires
        forall|x: int| 0 <= x < nodes.len() ==> cell_in_range(#[trigger] nodes[x].0),
        0 <= i < tree_path(nodes, m).len(),
    ensures
        cell_in_range(tree_path(nodes, m)[i]),
    decreases m,
{
    if m > 0 && m < nodes.len() && nodes[m].2 < m {
        let p = nodes[m].2 as int;
        if i < tree_path(nodes, p).len() {
            lemma_path_cells_in_range(nodes, p, i);
        } else {
            assert(tree_path(nodes, m)[i] == nodes[m].0);
        }
    }
}

/// What a search looks for.
#[derive(Clone, Copy, Debug, PartialEq, Eq, Structural)]
pub enum Goal {
    Haven,
    DeepHaven,
    QuietHaven,
}

pub open spec fn goal_spec(s: SightView, g: Goal, c: Cell, t: int) -> bool {
    match g {
        Goal::Haven => haven_spec(s, c, t),
        Goal::DeepHaven => deep_haven_spec(s, c, t),
        Goal::QuietHaven => quiet_haven_spec(s, c, t),
    }
}

fn meets(sight: &Sight, g: Goal, c: Cell, t: i64) -> (r: bool)
    requires
        sight_wf(sight@),
        tick_in_range(t as int),
    ensures
        r == goal_spec(sight@, g, c, t as int),
{
    match g {
        Goal::Haven => sight.haven(c, t),
        Goal::DeepHaven => sight.deep_haven(c, t),
        Goal::QuietHaven => sight.quiet_haven(c, t),
    }
}

/// Some plan of `n` moves ends on a cell that meets the goal when it arrives.
pub open spec fn reaches_goal_in(s: SightView, start: Cell, t_free: int, step: int, g: Goal, n: int) -> bool {
    exists|q: Seq<Cell>|
        walk_from(s, Moves::Walk, start, t_free, step, q) && q.len() == n && goal_spec(
            s,
            g,
            walk_end(start, q),
            t_at(t_free, step, n),
        )
}

/// The fewest moves after which the goal is met.
pub open spec fn goal_dist(s: SightView, start: Cell, t_free: int, step: int, g: Goal) -> int {
    choose|n: int|
        reaches_goal_in(s, start, t_free, step, g, n) && forall|m: int|
            0 <= m < n ==> !reaches_goal_in(s, start, t_free, step, g, m)
}

/// The goal can be met within `K_MAX` moves.
pub open spec fn goal_reachable(s: SightView, start: Cell, t_free: int, step: int, g: Goal) -> bool {
    exists|n: int| reaches_goal_in(s, start, t_free, step, g, n)
}

proof fn lemma_goal_dist(s: SightView, start: Cell, t_free: int, step: int, g: Goal, n: int)
    requires
        reaches_goal_in(s, start, t_free, step, g, n),
        forall|m: int| 0 <= m < n ==> !reaches_goal_in(s, start, t_free, step, g, m),
    ensures
        goal_dist(s, start, t_free, step, g) == n,
{
    let d = goal_dist(s, start, t_free, step, g);
    assert(reaches_goal_in(s, start, t_free, step, g, d) && forall|m: int|
        0 <= m < d ==> !reaches_goal_in(s, start, t_free, step, g, m));
    let q = choose|q: Seq<Cell>|
        walk_from(s, Moves::Walk, start, t_free, step, q) && q.len() == d && goal_spec(
            s,
            g,
            walk_end(start, q),
            t_at(t_free, step, d),
        );
    assert(d >= 0);
    if d < n {
        assert(reaches_goal_in(s, start, t_free, step, g, d));
    }
    if n < d {
        assert(!reaches_goal_in(s, start, t_free, step, g, n));
    }
}

/// Node `m` meets the goal at the time it is reached.
pub open spec fn node_meets(s: SightView, goal: Goal, t_free: int, step: int, nodes: Seq<(Cell, usize, usize)>, m: int) -> bool {
    goal_spec(s, goal, nodes[m].0, t_at(t_free, step, nodes[m].1 as int))
}

/// The first node from `m` on that meets the goal, or -1.
pub open spec fn first_meeting(s: SightView, goal: Goal, t_free: int, step: int, nodes: Seq<(Cell, usize, usize)>, m: int) -> int
    decreases nodes.len() - m,
{
    if m < 0 || m >= nodes.len() {
        -1
    } else if node_meets(s, goal, t_free, step, nodes, m) {
        m
    } else {
        first_meeting(s, goal, t_free, step, nodes, m + 1)
    }
}

/// The first of the deepest nodes before `m`.
pub open spec fn deepest_before(nodes: Seq<(Cell, usize, usize)>, m: int) -> int
    decreases m,
{
    if m <= 0 {
        0
    } else {
        let d = deepest_before(nodes, m - 1);
        if nodes[m - 1].1 > nodes[d].1 {
            m - 1
        } else {
            d
        }
    }
}

/// The path a search returns: to the first node of the breadth-first tree
/// that meets the goal, else to the first of the deepest.
pub open spec fn search_spec(s: SightView, start: Cell, t_free: int, step: int, goal: Goal) -> (Seq<Cell>, bool) {
    let tree = bfs_tree(s, Moves::Walk, start, t_free, step);
    let g = first_meeting(s, goal, t_free, step, tree, 0);
    if g >= 0 {
        (tree_path(tree, g), true)
    } else {
        (tree_path(tree, deepest_before(tree, tree.len() as int)), false)
    }
}

/// Breadth-first over (cell, step), waiting counted as a move. Returns the
/// path and whether `goal` was reached; without a hit, the path to the state
/// that survives longest.
#[verifier::spinoff_prover]
#[verifier::rlimit(40)]
fn search(world: &Sight, start: Cell, t_free: i64, step: i64, goal: Goal) -> (r: (Vec<Cell>, bool))
    requires
        sight_wf(world@),
        cell_in_range(start),
        0 <= t_free <= 1000,
        0 <= step <= 1000,
    ensures
        walk_from(world@, Moves::Walk, start, t_free as int, step as int, r.0@),
        forall|i: int| 0 <= i < r.0@.len() ==> cell_in_range(#[trigger] r.0@[i]),
        (r.0@, r.1) == search_spec(world@, start, t_free as int, step as int, goal),
        r.1 == goal_reachable(world@, start, t_free as int, step as int, goal),
        r.1 ==> goal_spec(
            world@,
            goal,
            walk_end(start, r.0@),
            t_at(t_free as int, step as int, r.0@.len() as int),
        ),
        r.1 ==> r.0@.len() == goal_dist(world@, start, t_free as int, step as int, goal),
        !r.1 ==> forall|q: Seq<Cell>|
            walk_from(world@, Moves::Walk, start, t_free as int, step as int, q) ==> q.len()
                <= r.0@.len(),
{
    let ghost s = world@;
    let nodes = explore(world, start, t_free, step, Moves::Walk);
    let mut deepest: usize = 0;
    let mut m: usize = 0;
    while m < nodes.len()
        invariant
            nodes@ == bfs_tree(s, Moves::Walk, start, t_free as int, step as int),
            first_meeting(s, goal, t_free as int, step as int, nodes@, 0) == first_meeting(
                s,
                goal,
                t_free as int,
                step as int,
                nodes@,
                m as int,
            ),
            deepest == deepest_before(nodes@, m as int),
            s == world@,
            sight_wf(s),
            0 <= t_free <= 1000,
            0 <= step <= 1000,
            tree_ok(s, Moves::Walk, start, t_free as int, step as int, nodes@),
            forall|x: int| 0 <= x < nodes@.len() ==> cell_in_range(#[trigger] nodes@[x].0),
            forall|x: int|
                0 <= x < nodes@.len() && nodes@[x].1 < K_MAX ==> #[trigger] expanded(
                    s,
                    Moves::Walk,
                    t_free as int,
                    step as int,
                    nodes@,
                    x,
                ),
            m <= nodes@.len(),
            deepest < nodes@.len(),
            forall|x: int|
                0 <= x < m ==> !goal_spec(
                    s,
                    goal,
                    nodes@[x].0,
                    t_at(t_free as int, step as int, #[trigger] nodes@[x].1 as int),
                ),
            forall|x: int| 0 <= x < m ==> #[trigger] nodes@[x].1 <= nodes@[deepest as int].1,
        decreases nodes.len() - m,
    {
        let (cell, k, _) = nodes[m];
        assert(k <= K_MAX);
        assert(0 <= k as int * step <= 20000) by (nonlinear_arith)
            requires
                k <= 20,
                0 <= step <= 1000,
        ;
        let t: i64 = t_free + k as i64 * step;
        if meets(world, goal, cell, t) {
            let path = extract_path(&nodes, m);
            proof {
                lemma_tree_path(s, Moves::Walk, start, t_free as int, step as int, nodes@, m as int);
                assert(reaches_goal_in(s, start, t_free as int, step as int, goal, k as int));
                assert forall|n: int| 0 <= n < k implies !reaches_goal_in(
                    s,
                    start,
                    t_free as int,
                    step as int,
                    goal,
                    n,
                ) by {
                    if reaches_goal_in(s, start, t_free as int, step as int, goal, n) {
                        let q = choose|q: Seq<Cell>|
                            walk_from(s, Moves::Walk, start, t_free as int, step as int, q) && q.len()
                                == n && goal_spec(s, goal, walk_end(start, q), t_at(t_free as int, step as int, n));
                        lemma_tree_complete(s, Moves::Walk, start, t_free as int, step as int, nodes@, q);
                        let x = choose|x: int|
                            0 <= x < nodes@.len() && nodes@[x].1 == n && nodes@[x].0 == walk_end(start, q);
                        if x >= m {
                            assert(nodes@[m as int].1 <= nodes@[x].1);
                        }
                    }
                }
                lemma_goal_dist(s, start, t_free as int, step as int, goal, k as int);
                assert forall|i: int| 0 <= i < path@.len() implies cell_in_range(#[trigger] path@[i]) by {
                    lemma_path_cells_in_range(nodes@, m as int, i);
                }
            }
            return (path, true);
        }
        if k > nodes[deepest].1 {
            deepest = m;
        }
        m = m + 1;
    }
    assert(first_meeting(s, goal, t_free as int, step as int, nodes@, m as int) == -1);
    let path = extract_path(&nodes, deepest);
    proof {
        lemma_tree_path(s, Moves::Walk, start, t_free as int, step as int, nodes@, deepest as int);
        assert forall|q: Seq<Cell>|
            walk_from(s, Moves::Walk, start, t_free as int, step as int, q) implies q.len()
            <= path@.len() by {
            lemma_tree_complete(s, Moves::Walk, start, t_free as int, step as int, nodes@, q);
            let x = choose|x: int|
                0 <= x < nodes@.len() && nodes@[x].1 == q.len() && nodes@[x].0 == walk_end(start, q);
            assert(nodes@[x].1 <= nodes@[deepest as int].1);
        }
        if goal_reachable(s, start, t_free as int, step as int, goal) {
            let n = choose|n: int| reaches_goal_in(s, start, t_free as int, step as int, goal, n);
            let q = choose|q: Seq<Cell>|
                walk_from(s, Moves::Walk, start, t_free as int, step as int, q) && q.len() == n
                    && goal_spec(s, goal, walk_end(start, q), t_at(t_free as int, step as int, n));
            lemma_tree_complete(s, Moves::Walk, start, t_free as int, step as int, nodes@, q);
            let x = choose|x: int|
                0 <= x < nodes@.len() && nodes@[x].1 == q.len() && nodes@[x].0 == walk_end(start, q);
            assert(!goal_spec(s, goal, nodes@[x].0, t_at(t_free as int, step as int, nodes@[x].1 as int)));
        }
        assert forall|i: int| 0 <= i < path@.len() implies cell_in_range(#[trigger] path@[i]) by {
            lemma_path_cells_in_range(nodes@, deepest as int, i);
        }
    }
    (path, false)
}


/// Which haven the escape settles for: a deep one when sudden death is near
/// and it costs at most three extra moves, else one out of enemy bomb lines
/// if that costs at most two, else the nearest.
pub open spec fn escape_goal(s: SightView, start: Cell, t_free: int, step: int) -> Goal {
    let h = goal_dist(s, start, t_free, step, Goal::Haven);
    if s.sd_prep && goal_reachable(s, start, t_free, step, Goal::DeepHaven) && goal_dist(
        s,
        start,
        t_free,
        step,
        Goal::DeepHaven,
    ) <= h + 3 {
        Goal::DeepHaven
    } else if s.threat.len() > 0 && goal_reachable(s, start, t_free, step, Goal::QuietHaven)
        && goal_dist(s, start, t_free, step, Goal::QuietHaven) <= h + 2 {
        Goal::QuietHaven
    } else {
        Goal::Haven
    }
}

/// Nearest haven -- preferably out of enemy bomb lines if that costs at most
/// two extra steps, and deeper inside once sudden death is near. Without a
/// haven in reach, the plan that survives longest.
fn escape_path(world: &Sight, start: Cell, t_free: i64, step: i64) -> (r: (Vec<Cell>, bool))
    requires
        sight_wf(world@),
        cell_in_range(start),
        0 <= t_free <= 1000,
        0 <= step <= 1000,
    ensures
        walk_from(world@, Moves::Walk, start, t_free as int, step as int, r.0@),
        forall|i: int| 0 <= i < r.0@.len() ==> cell_in_range(#[trigger] r.0@[i]),
        r.1 == goal_reachable(world@, start, t_free as int, step as int, Goal::Haven),
        r.1 ==> {
            let g = escape_goal(world@, start, t_free as int, step as int);
            &&& goal_spec(
                world@,
                g,
                walk_end(start, r.0@),
                t_at(t_free as int, step as int, r.0@.len() as int),
            )
            &&& r.0@.len() == goal_dist(world@, start, t_free as int, step as int, g)
        },
        !r.1 ==> forall|q: Seq<Cell>|
            walk_from(world@, Moves::Walk, start, t_free as int, step as int, q) ==> q.len()
                <= r.0@.len(),
        (r.0@, r.1) == escape_spec(world@, start, t_free as int, step as int),
{
    let (path, found) = search(world, start, t_free, step, Goal::Haven);
    if found && world.sd_prep {
        let (deep, ok) = search(world, start, t_free, step, Goal::DeepHaven);
        if ok && deep.len() <= path.len() + 3 {
            return (deep, true);
        }
    }
    if found && world.threat.len() > 0 {
        let (quiet, ok) = search(world, start, t_free, step, Goal::QuietHaven);
        if ok && quiet.len() <= path.len() + 2 {
            return (quiet, true);
        }
    }
    (path, found)
}

/// The escape: towards the haven escape_goal settles for, and whether any
/// haven is in reach; without one, the path that survives longest.
pub open spec fn escape_spec(s: SightView, start: Cell, t_free: int, step: int) -> (Seq<Cell>, bool) {
    if goal_reachable(s, start, t_free, step, Goal::Haven) {
        (search_spec(s, start, t_free, step, escape_goal(s, start, t_free, step)).0, true)
    } else {
        (search_spec(s, start, t_free, step, Goal::Haven).0, false)
    }
}

/// How long a cell reached after `l` moves stays open.
pub open spec fn close_margin(s: SightView, c: Cell, t_free: int, step: int, l: int) -> int {
    close_time(s.closing, c) - t_at(t_free, step, l)
}

/// How long the cell of node `m` stays open once reached.
pub open spec fn node_margin(s: SightView, t_free: int, step: int, nodes: Seq<(Cell, usize, usize)>, m: int) -> int {
    close_margin(s, nodes[m].0, t_free, step, nodes[m].1 as int)
}

/// The first node before `m` whose cell, safe to stand on for a step, stays
/// open the longest; the root if none beats it.
pub open spec fn latest_before(s: SightView, t_free: int, step: int, nodes: Seq<(Cell, usize, usize)>, m: int) -> int
    decreases m,
{
    if m <= 0 {
        0
    } else {
        let b = latest_before(s, t_free, step, nodes, m - 1);
        let t = t_at(t_free, step, nodes[m - 1].1 as int);
        if node_margin(s, t_free, step, nodes, m - 1) > node_margin(s, t_free, step, nodes, b)
            && safe_spec(s, nodes[m - 1].0, t, t + step) {
            m - 1
        } else {
            b
        }
    }
}

/// The path to the latest-closing cell, over the breadth-first tree of steps.
pub open spec fn latest_closing_spec(s: SightView, start: Cell, t_free: int, step: int) -> Seq<Cell> {
    let tree = bfs_tree(s, Moves::StepOnly, start, t_free, step);
    tree_path(tree, latest_before(s, t_free, step, tree, tree.len() as int))
}

/// Sudden-death fallback: the safely reachable cell that closes last. Only
/// steps count here; the plan is empty if no cell beats staying put.
fn latest_closing_path(world: &Sight, start: Cell, t_free: i64, step: i64) -> (path: Vec<Cell>)
    requires
        sight_wf(world@),
        cell_in_range(start),
        0 <= t_free <= 1000,
        0 <= step <= 1000,
    ensures
        walk_from(world@, Moves::StepOnly, start, t_free as int, step as int, path@),
        forall|i: int| 0 <= i < path@.len() ==> cell_in_range(#[trigger] path@[i]),
        path@.len() > 0 ==> {
            let l = path@.len() as int;
            let e = walk_end(start, path@);
            &&& safe_spec(world@, e, t_at(t_free as int, step as int, l), t_at(t_free as int, step as int, l) + step)
            &&& close_margin(world@, e, t_free as int, step as int, l) > close_margin(
                world@,
                start,
                t_free as int,
                step as int,
                0,
            )
        },
        forall|q: Seq<Cell>|
            walk_from(world@, Moves::StepOnly, start, t_free as int, step as int, q) && safe_spec(
                world@,
                walk_end(start, q),
                t_at(t_free as int, step as int, q.len() as int),
                t_at(t_free as int, step as int, q.len() as int) + step,
            ) ==> close_margin(world@, walk_end(start, q), t_free as int, step as int, q.len() as int)
                <= close_margin(
                world@,
                walk_end(start, path@),
                t_free as int,
                step as int,
                path@.len() as int,
            ),
        path@ == latest_closing_spec(world@, start, t_free as int, step as int),
{
    let ghost s = world@;
    let nodes = explore(world, start, t_free, step, Moves::StepOnly);
    let mut best_margin: i64 = world.time_to_close(start) - t_free;
    let mut best: usize = 0;
    let mut m: usize = 0;
    while m < nodes.len()
        invariant
            nodes@ == bfs_tree(s, Moves::StepOnly, start, t_free as int, step as int),
            best == latest_before(s, t_free as int, step as int, nodes@, m as int),
            s == world@,
            sight_wf(s),
            0 <= t_free <= 1000,
            0 <= step <= 1000,
            tree_ok(s, Moves::StepOnly, start, t_free as int, step as int, nodes@),
            forall|x: int| 0 <= x < nodes@.len() ==> cell_in_range(#[trigger] nodes@[x].0),
            m <= nodes@.len(),
            best < nodes@.len(),
            best_margin == close_margin(s, nodes@[best as int].0, t_free as int, step as int, nodes@[best as int].1 as int),
            best_margin >= close_margin(s, start, t_free as int, step as int, 0),
            best > 0 ==> safe_spec(
                s,
                nodes@[best as int].0,
                t_at(t_free as int, step as int, nodes@[best as int].1 as int),
                t_at(t_free as int, step as int, nodes@[best as int].1 as int) + step,
            ) && best_margin > close_margin(s, start, t_free as int, step as int, 0),
            forall|x: int|
                0 <= x < m && safe_spec(
                    s,
                    nodes@[x].0,
                    t_at(t_free as int, step as int, nodes@[x].1 as int),
                    t_at(t_free as int, step as int, nodes@[x].1 as int) + step,
                ) ==> close_margin(s, #[trigger] nodes@[x].0, t_free as int, step as int, nodes@[x].1 as int)
                    <= best_margin,
        decreases nodes.len() - m,
    {
        let (cell, k, _) = nodes[m];
        assert(k <= K_MAX);
        assert(0 <= k as int * step <= 20000) by (nonlinear_arith)
            requires
                k <= 20,
                0 <= step <= 1000,
        ;
        let t: i64 = t_free + k as i64 * step;
        let margin = world.time_to_close(cell) - t;
        if margin > best_margin && world.safe(cell, t, t + step) {
            best_margin = margin;
            best = m;
            assert(m > 0);
        }
        m = m + 1;
    }
    let path = extract_path(&nodes, best);
    proof {
        lemma_tree_path(s, Moves::StepOnly, start, t_free as int, step as int, nodes@, best as int);
        assert forall|i: int| 0 <= i < path@.len() implies cell_in_range(#[trigger] path@[i]) by {
            lemma_path_cells_in_range(nodes@, best as int, i);
        }
        assert forall|q: Seq<Cell>|
            walk_from(s, Moves::StepOnly, start, t_free as int, step as int, q) && safe_spec(
                s,
                walk_end(start, q),
                t_at(t_free as int, step as int, q.len() as int),
                t_at(t_free as int, step as int, q.len() as int) + step,
            ) implies close_margin(s, walk_end(start, q), t_free as int, step as int, q.len() as int)
            <= close_margin(s, walk_end(start, path@), t_free as int, step as int, path@.len() as int) by {
            lemma_tree_complete(s, Moves::StepOnly, start, t_free as int, step as int, nodes@, q);
            let x = choose|x: int|
                0 <= x < nodes@.len() && nodes@[x].1 == q.len() && nodes@[x].0 == walk_end(start, q);
            assert(close_margin(s, nodes@[x].0, t_free as int, step as int, nodes@[x].1 as int) <= best_margin);
        }
    }
    path
}

pub open spec fn first_action_spec(start: Cell, path: Seq<Cell>) -> Action {
    if path.len() == 0 || path[0] == start {
        Action::Idle
    } else {
        step_action_spec(((path[0].0 - start.0) as i32, (path[0].1 - start.1) as i32))
    }
}

/// The move that begins a plan: idle when the plan is empty or begins by
/// waiting.
pub fn first_action(start: Cell, path: &Vec<Cell>) -> (a: Action)
    requires
        path@.len() > 0 && path@[0] != start ==> i32::MIN <= path@[0].0 - start.0 <= i32::MAX
            && i32::MIN <= path@[0].1 - start.1 <= i32::MAX,
    ensures
        a == first_action_spec(start, path@),
{
    if path.len() == 0 {
        return Action::Idle;
    }
    let c = path[0];
    if c.0 == start.0 && c.1 == start.1 {
        return Action::Idle;
    }
    step_action((c.0 - start.0, c.1 - start.1))
}


// -- what a bomb here would do ------------------------------------------------------

/// How many of `cells` hold a crate.
pub open spec fn crates_in(w: WorldView, cells: Seq<Cell>) -> int
    decreases cells.len(),
{
    if cells.len() == 0 {
        0
    } else {
        crates_in(w, cells.drop_last()) + if tile_at(
            w,
            cells.last().0 as int,
            cells.last().1 as int,
        ) == Tile::Soft {
            1int
        } else {
            0int
        }
    }
}

/// How many of `ps` stand on one of `cells`.
pub open spec fn players_in(ps: Seq<PlayerView>, cells: Seq<Cell>) -> int
    decreases ps.len(),
{
    if ps.len() == 0 {
        0
    } else {
        players_in(ps.drop_last(), cells) + if cells.contains(
            (ps.last().x as i32, ps.last().y as i32),
        ) {
            1int
        } else {
            0int
        }
    }
}

/// How many power-ups of `ps` lie on one of `cells`.
pub open spec fn powerups_in(ps: Seq<crate::world::PowerupView>, cells: Seq<Cell>) -> int
    decreases ps.len(),
{
    if ps.len() == 0 {
        0
    } else {
        powerups_in(ps.drop_last(), cells) + if cells.contains(
            (ps.last().x as i32, ps.last().y as i32),
        ) {
            1int
        } else {
            0int
        }
    }
}

fn count_crates(state: &World, cells: &Vec<Cell>) -> (n: usize)
    requires
        world_wf(state@),
    ensures
        n == crates_in(state@, cells@),
        n <= cells@.len(),
{
    let mut n: usize = 0;
    let mut i: usize = 0;
    while i < cells.len()
        invariant
            world_wf(state@),
            i <= cells@.len(),
            n == crates_in(state@, cells@.take(i as int)),
            n <= i,
        decreases cells.len() - i,
    {
        proof {
            assert(cells@.take(i as int + 1).drop_last() =~= cells@.take(i as int));
        }
        if state.tile(cells[i].0, cells[i].1) == Tile::Soft {
            n = n + 1;
        }
        i = i + 1;
    }
    proof {
        assert(cells@.take(cells@.len() as int) =~= cells@);
    }
    n
}

fn count_players_in(ps: &Vec<PlayerView>, cells: &Vec<Cell>) -> (n: usize)
    ensures
        n == players_in(ps@, cells@),
        n <= ps@.len(),
{
    let mut n: usize = 0;
    let mut i: usize = 0;
    while i < ps.len()
        invariant
            i <= ps@.len(),
            n == players_in(ps@.take(i as int), cells@),
            n <= i,
        decreases ps.len() - i,
    {
        proof {
            assert(ps@.take(i as int + 1).drop_last() =~= ps@.take(i as int));
        }
        if cell_in(cells, (ps[i].x as i32, ps[i].y as i32)) {
            n = n + 1;
        }
        i = i + 1;
    }
    proof {
        assert(ps@.take(ps@.len() as int) =~= ps@);
    }
    n
}

fn count_powerups_in(ps: &Vec<crate::world::PowerupView>, cells: &Vec<Cell>) -> (n: usize)
    ensures
        n == powerups_in(ps@, cells@),
        n <= ps@.len(),
{
    let mut n: usize = 0;
    let mut i: usize = 0;
    while i < ps.len()
        invariant
            i <= ps@.len(),
            n == powerups_in(ps@.take(i as int), cells@),
            n <= i,
        decreases ps.len() - i,
    {
        proof {
            assert(ps@.take(i as int + 1).drop_last() =~= ps@.take(i as int));
        }
        if cell_in(cells, (ps[i].x as i32, ps[i].y as i32)) {
            n = n + 1;
        }
        i = i + 1;
    }
    proof {
        assert(ps@.take(ps@.len() as int) =~= ps@);
    }
    n
}

/// Crates or enemies in our cross, minus power-ups the blast would burn: a
/// hit enemy counts three.
pub open spec fn bomb_worth_spec(w: WorldView, me: PlayerView, enemies: Seq<PlayerView>) -> bool {
    let blast = blast_spec(w, me.x as int, me.y as int, me.flame);
    crates_in(w, blast) + 3 * players_in(enemies, blast) - powerups_in(w.powerups, blast) >= 1
}

/// The living opponents, in the order the world lists players.
pub open spec fn enemies_from(ps: Seq<PlayerView>, my_id: u8) -> Seq<PlayerView>
    decreases ps.len(),
{
    if ps.len() == 0 {
        Seq::empty()
    } else {
        enemies_from(ps.drop_last(), my_id) + if ps.last().id != my_id && ps.last().alive {
            seq![ps.last()]
        } else {
            Seq::empty()
        }
    }
}

fn enemies_of(state: &World, my_id: u8) -> (es: Vec<PlayerView>)
    ensures
        es@ == enemies_from(state@.players, my_id),
{
    let mut es: Vec<PlayerView> = Vec::new();
    let mut i: usize = 0;
    while i < state.players.len()
        invariant
            i <= state.players@.len(),
            es@ == enemies_from(state@.players.take(i as int), my_id),
        decreases state.players.len() - i,
    {
        proof {
            assert(state.players@.take(i as int + 1).drop_last() =~= state.players@.take(i as int));
        }
        let p = state.players[i];
        if p.id != my_id && p.alive {
            es.push(p);
        }
        proof {
            assert(es@ =~= enemies_from(state.players@.take(i as int + 1), my_id));
        }
        i = i + 1;
    }
    proof {
        assert(state.players@.take(state.players@.len() as int) =~= state.players@);
    }
    es
}

/// Copies a list of cells.
fn copy_cells(v: &Vec<Cell>) -> (r: Vec<Cell>)
    ensures
        r@ == v@,
{
    let mut r: Vec<Cell> = Vec::new();
    let mut i: usize = 0;
    while i < v.len()
        invariant
            i <= v@.len(),
            r@ == v@.take(i as int),
        decreases v.len() - i,
    {
        r.push(v[i]);
        proof {
            assert(r@ =~= v@.take(i as int + 1));
        }
        i = i + 1;
    }
    proof {
        assert(v@.take(v@.len() as int) =~= v@);
    }
    r
}

// -- the bot ---------------------------------------------------------------------

/// Wall-clock units in one tick: the clock counts tenths of a tick, 1/600 s.
/// Time finer than that is not seen, so replaying a plan between states can
/// switch steps up to one unit later than a clock in seconds would.
pub const CLOCK_PER_TICK: u64 = 10;

/// A bomb command remembered so it can be repeated once if it got lost.
#[derive(Debug)]
pub struct SavedBomb {
    pub action: Action,
    pub path: Vec<Cell>,
    pub cell: Cell,
    pub step: i64,
    pub t_free: i64,
}

/// Memory between ticks. Reset per match: every tick in here is a match tick.
#[derive(Debug)]
pub struct Memo {
    pub tick: Option<u32>,
    pub plan: Vec<Cell>,
    pub plan_start: Option<Cell>,
    /// Wall clock when the plan was made.
    pub plan_t0: u64,
    /// Ticks one step of the plan takes.
    pub plan_step: i64,
    /// Ticks before the plan's first step can begin.
    pub plan_delay: i64,
    pub target: Option<Cell>,
    /// Bomb spots given up on, each until a tick.
    pub banned: Vec<(Cell, u32)>,
    pub bomb_sent_tick: Option<u32>,
    pub last_move_tick: Option<u32>,
    pub match_id: Option<u32>,
    pub bomb_action: Option<SavedBomb>,
}

pub open spec fn memo_fresh(m: Memo) -> bool {
    &&& m.tick is None
    &&& m.plan@.len() == 0
    &&& m.plan_start is None
    &&& m.plan_t0 == 0
    &&& m.plan_step == 8
    &&& m.plan_delay == 0
    &&& m.target is None
    &&& m.banned@.len() == 0
    &&& m.bomb_sent_tick is None
    &&& m.last_move_tick is None
    &&& m.match_id is None
    &&& m.bomb_action is None
}

impl Default for Memo {
    fn default() -> (m: Memo)
        ensures
            memo_fresh(m),
    {
        Memo {
            tick: None,
            plan: Vec::new(),
            plan_start: None,
            plan_t0: 0,
            plan_step: 8,
            plan_delay: 0,
            target: None,
            banned: Vec::new(),
            bomb_sent_tick: None,
            last_move_tick: None,
            match_id: None,
            bomb_action: None,
        }
    }
}

#[derive(Debug)]
pub struct Bot {
    pub memo: Memo,
}

impl Default for Bot {
    fn default() -> (b: Bot)
        ensures
            memo_fresh(b.memo),
    {
        Bot { memo: Memo::default() }
    }
}

/// What the bot needs to know about the match beyond the world state.
pub struct Situation<'a> {
    pub world: &'a World,
    pub rules: Rules,
    pub my_id: u8,
    /// The tick of the state held, `None` if unknown.
    pub at_tick: Option<u32>,
    pub match_id: Option<u32>,
    /// Wall clock in tenths of a tick, for dead reckoning on a frozen state.
    pub now: u64,
}

/// A chosen action, the plan behind it, and how the plan is timed.
pub struct Decision {
    pub action: Action,
    pub path: Vec<Cell>,
    pub start: Cell,
    pub step: i64,
    pub t_free: i64,
}

/// The ticks a step takes for `me`, and the ticks until `me` is free to
/// start one.
pub open spec fn step_of(rules: Rules, me: PlayerView) -> int {
    ticks_per_cell_spec(rules, me.speed)
}

pub open spec fn t_free_of(rules: Rules, me: PlayerView) -> int {
    if me.moving && step_of(rules, me) - me.move_progress > 0 {
        step_of(rules, me) - me.move_progress
    } else {
        0
    }
}

/// No bomb left to place, or the last bomb command is too recent.
pub open spec fn bomb_unavailable_at(sent: Option<u32>, w: WorldView, me: PlayerView, now_tick: u32) -> bool {
    bomb_capacity_spec(w, me.id) == 0 || match sent {
        Some(sent) => now_tick - sent < BOMB_COOLDOWN_TICKS,
        None => false,
    }
}

pub open spec fn bomb_unavailable_spec(memo: Memo, w: WorldView, me: PlayerView, now_tick: u32) -> bool {
    bomb_unavailable_at(memo.bomb_sent_tick, w, me, now_tick)
}

/// The escape from the cell next to a bomb we would drop now, one
/// neighbour per direction.
pub open spec fn attack_ok(s: SightView, cur: Cell, d: int, step: int) -> bool {
    let n = neighbour(cur, d);
    passable_spec(s, n) && safe_spec(s, n, 0, step) && goal_reachable(s, n, 0, step, Goal::Haven)
}

pub open spec fn attack_len(s: SightView, cur: Cell, d: int, step: int) -> int {
    let n = neighbour(cur, d);
    goal_dist(s, n, 0, step, escape_goal(s, n, 0, step))
}

/// The first direction, in the order up, down, left, right, whose escape is
/// as short as any.
pub open spec fn best_attack(s: SightView, cur: Cell, step: int, d: int) -> bool {
    &&& 0 <= d < 4
    &&& attack_ok(s, cur, d, step)
    &&& forall|e: int| 0 <= e < d && attack_ok(s, cur, e, step) ==> attack_len(s, cur, e, step) > attack_len(s, cur, d, step)
    &&& forall|e: int| d < e < 4 && attack_ok(s, cur, e, step) ==> attack_len(s, cur, e, step) >= attack_len(s, cur, d, step)
}

/// A move, last sent at `last_move`, may still be under way at the server.
pub open spec fn settling(last_move: Option<u32>, now_tick: u32) -> bool {
    match last_move {
        Some(m) => now_tick - m < MOVE_SETTLE_TICKS,
        None => false,
    }
}

/// What plan_attack returns: nothing when no bomb is free, it would not pay
/// or no step away is safe; a pause while a move settles; else the bomb with
/// the best step away and the escape beyond it.
pub open spec fn attack_spec(sent: Option<u32>, last_move: Option<u32>, w: WorldView, rules: Rules, me: PlayerView, enemies: Seq<PlayerView>, step: int, now_tick: u32) -> Option<(Action, Seq<Cell>)> {
    let cur = (me.x as i32, me.y as i32);
    let s = sight_spec(w, rules, me.id, Some((cur, me.flame)), now_tick);
    if bomb_unavailable_at(sent, w, me, now_tick) || !bomb_worth_spec(w, me, enemies) || !(exists|d: int|
        0 <= d < 4 && attack_ok(s, cur, d, step)) {
        None
    } else if settling(last_move, now_tick) {
        Some((Action::Idle, Seq::empty()))
    } else {
        let d = choose|d: int| best_attack(s, cur, step, d);
        Some(
            (
                step_bomb_action_spec(dir_spec(d)),
                seq![neighbour(cur, d)] + escape_spec(s, neighbour(cur, d), 0, step).0,
            ),
        )
    }
}

/// At most one direction is the best attack.
proof fn lemma_best_attack_unique(s: SightView, cur: Cell, step: int, d1: int, d2: int)
    requires
        best_attack(s, cur, step, d1),
        best_attack(s, cur, step, d2),
    ensures
        d1 == d2,
{
    if d1 < d2 {
        assert(attack_len(s, cur, d1, step) > attack_len(s, cur, d2, step));
    } else if d2 < d1 {
        assert(attack_len(s, cur, d2, step) > attack_len(s, cur, d1, step));
    }
}

impl Bot {
    pub fn reset(&mut self)
        ensures
            memo_fresh(final(self).memo),
    {
        self.memo = Memo::default();
    }

    fn bomb_unavailable(&self, state: &World, me: &PlayerView, now_tick: u32) -> (r: bool)
        requires
            world_wf(state@),
        ensures
            r == bomb_unavailable_spec(self.memo, state@, *me, now_tick),
    {
        if bomb_capacity(state, me.id) == 0 {
            return true;
        }
        match self.memo.bomb_sent_tick {
            Some(sent) => (now_tick as i64 - sent as i64) < BOMB_COOLDOWN_TICKS as i64,
            None => false,
        }
    }

    /// Crates or enemies in our cross, minus power-ups the blast would burn.
    fn bomb_worth_here(state: &World, me: &PlayerView, enemies: &Vec<PlayerView>) -> (r: bool)
        requires
            world_wf(state@),
        ensures
            r == bomb_worth_spec(state@, *me, enemies@),
    {
        let blast = blast_cells(state, me.x as i32, me.y as i32, me.flame);
        let crates = count_crates(state, &blast);
        let hits = count_players_in(enemies, &blast);
        let burned = count_powerups_in(&state.powerups, &blast);
        crates as i128 + 3 * hits as i128 - burned as i128 >= 1
    }

    /// Bomb and step away, if it pays and the escape is fast enough.
    /// `(Idle, [])` means: good spot, but a move was just sent -- settle first,
    /// or the bomb could land on the target of a step the server still takes.
    fn plan_attack(
        &self,
        state: &World,
        rules: &Rules,
        me: &PlayerView,
        enemies: &Vec<PlayerView>,
        step: i64,
        now_tick: u32,
    ) -> (r: Option<(Action, Vec<Cell>)>)
        requires
            world_wf(state@),
            0 <= step <= 255,
        ensures
            ({
                let cur = (me.x as i32, me.y as i32);
                let s = sight_spec(state@, *rules, me.id, Some((cur, me.flame)), now_tick);
                &&& (bomb_unavailable_spec(self.memo, state@, *me, now_tick) || !bomb_worth_spec(
                    state@,
                    *me,
                    enemies@,
                ) || !(exists|d: int| 0 <= d < 4 && attack_ok(s, cur, d, step as int))) ==> r is None
                &&& r is None ==> (bomb_unavailable_spec(self.memo, state@, *me, now_tick)
                    || !bomb_worth_spec(state@, *me, enemies@) || !(exists|d: int|
                    0 <= d < 4 && attack_ok(s, cur, d, step as int)))
                &&& match r {
                    None => attack_spec(
                        self.memo.bomb_sent_tick,
                        self.memo.last_move_tick,
                        state@,
                        *rules,
                        *me,
                        enemies@,
                        step as int,
                        now_tick,
                    ) is None,
                    Some((a, p)) => attack_spec(
                        self.memo.bomb_sent_tick,
                        self.memo.last_move_tick,
                        state@,
                        *rules,
                        *me,
                        enemies@,
                        step as int,
                        now_tick,
                    ) == Some((a, p@)),
                }
                &&& r matches Some((a, p)) ==> forall|i: int| 0 <= i < p@.len() ==> cell_in_range(#[trigger] p@[i])
                &&& r matches Some((a, p)) ==> {
                    let settling = match self.memo.last_move_tick {
                        Some(m) => now_tick - m < MOVE_SETTLE_TICKS,
                        None => false,
                    };
                    &&& settling ==> a == Action::Idle && p.len() == 0
                    &&& !settling ==> exists|d: int|
                        best_attack(s, cur, step as int, d) && a == step_bomb_action_spec(dir_spec(d))
                            && p@ == seq![neighbour(cur, d)] + escape_spec(s, neighbour(cur, d), 0, step as int).0
                            && p@.len() == 1 + attack_len(s, cur, d, step as int) && p@[0]
                            == neighbour(cur, d) && walk_from(
                            s,
                            Moves::Walk,
                            neighbour(cur, d),
                            0,
                            step as int,
                            p@.drop_first(),
                        )
                }
            }),
    {
        if self.bomb_unavailable(state, me, now_tick) || !Self::bomb_worth_here(state, me, enemies) {
            return None;
        }
        let cur: Cell = (me.x as i32, me.y as i32);
        let world = Sight::new(state, rules, me.id, Some((cur, me.flame)), now_tick);
        let ghost s = world@;
        let mut best: Option<(usize, usize, Vec<Cell>)> = None;
        let mut d: usize = 0;
        while d < 4
            invariant
                s == world@,
                sight_wf(s),
                0 <= step <= 255,
                cell_in_range(cur),
                d <= 4,
                best is None ==> forall|e: int| 0 <= e < d ==> !attack_ok(s, cur, e, step as int),
                best matches Some((len, bd, full)) ==> {
                    &&& bd < d
                    &&& attack_ok(s, cur, bd as int, step as int)
                    &&& len == attack_len(s, cur, bd as int, step as int)
                    &&& forall|e: int| 0 <= e < bd && attack_ok(s, cur, e, step as int) ==> attack_len(s, cur, e, step as int) > len
                    &&& forall|e: int| bd < e < d && attack_ok(s, cur, e, step as int) ==> attack_len(s, cur, e, step as int) >= len
                    &&& full@.len() == 1 + len
                    &&& full@ == seq![neighbour(cur, bd as int)] + escape_spec(s, neighbour(cur, bd as int), 0, step as int).0
                    &&& full@[0] == neighbour(cur, bd as int)
                    &&& walk_from(s, Moves::Walk, neighbour(cur, bd as int), 0, step as int, full@.drop_first())
                    &&& forall|i: int| 0 <= i < full@.len() ==> cell_in_range(#[trigger] full@[i])
                },
            decreases 4 - d,
        {
            let dd = dir(d);
            let n: Cell = (cur.0 + dd.0, cur.1 + dd.1);
            assert(n == neighbour(cur, d as int));
            if world.passable(n) && world.safe(n, 0, step) {
                let (path, found) = escape_path(&world, n, 0, step);
                let better = match &best {
                    None => true,
                    Some(b) => path.len() < b.0,
                };
                if found && better {
                    let mut full: Vec<Cell> = Vec::new();
                    full.push(n);
                    let mut j: usize = 0;
                    while j < path.len()
                        invariant
                            j <= path@.len(),
                            full@ == seq![n] + path@.take(j as int),
                        decreases path.len() - j,
                    {
                        full.push(path[j]);
                        proof {
                            assert(full@ =~= seq![n] + path@.take(j as int + 1));
                        }
                        j = j + 1;
                    }
                    proof {
                        assert(path@.take(path@.len() as int) =~= path@);
                        assert(full@.drop_first() =~= path@);
                        assert forall|i: int| 0 <= i < full@.len() implies cell_in_range(#[trigger] full@[i]) by {
                            if i > 0 {
                                assert(full@[i] == path@[i - 1]);
                            }
                        }
                    }
                    best = Some((path.len(), d, full));
                }
            }
            d = d + 1;
        }
        let (_, bd, path) = match best {
            Some(b) => b,
            None => return None,
        };
        let settling = match self.memo.last_move_tick {
            Some(m) => (now_tick as i64 - m as i64) < MOVE_SETTLE_TICKS as i64,
            None => false,
        };
        if settling {
            return Some((Action::Idle, Vec::new()));
        }
        proof {
            assert(best_attack(s, cur, step as int, bd as int));
            let d = choose|d: int| best_attack(s, cur, step as int, d);
            lemma_best_attack_unique(s, cur, step as int, d, bd as int);
        }
        Some((step_bomb_action(dir(bd)), path))
    }
}


// -- targets ---------------------------------------------------------------------

/// The value `vals` holds for `c`, if any: its first entry.
pub open spec fn value_of(vals: Seq<(Cell, i128)>, c: Cell) -> Option<i128>
    decreases vals.len(),
{
    if vals.len() == 0 {
        None
    } else {
        match value_of(vals.drop_last(), c) {
            Some(v) => Some(v),
            None => if vals.last().0 == c {
                Some(vals.last().1)
            } else {
                None
            },
        }
    }
}

/// Index of the first entry for `c`, or -1.
pub open spec fn value_index(vals: Seq<(Cell, i128)>, c: Cell) -> int
    decreases vals.len(),
{
    if vals.len() == 0 {
        -1
    } else if value_index(vals.drop_last(), c) >= 0 {
        value_index(vals.drop_last(), c)
    } else if vals.last().0 == c {
        vals.len() - 1
    } else {
        -1
    }
}

/// `c` worth at least `v`: the entry for `c` raised to `v`, or added.
pub open spec fn put_max(vals: Seq<(Cell, i128)>, c: Cell, v: i128) -> Seq<(Cell, i128)> {
    let i = value_index(vals, c);
    if i >= 0 {
        vals.update(i, (c, if vals[i].1 >= v { vals[i].1 } else { v }))
    } else {
        vals.push((c, v))
    }
}

/// The largest value, or zero.
pub open spec fn vals_max(vals: Seq<(Cell, i128)>) -> int
    decreases vals.len(),
{
    if vals.len() == 0 {
        0
    } else if vals.last().1 > vals_max(vals.drop_last()) {
        vals.last().1 as int
    } else {
        vals_max(vals.drop_last())
    }
}

proof fn lemma_value_index(vals: Seq<(Cell, i128)>, c: Cell)
    ensures
        -1 <= value_index(vals, c) < vals.len(),
        value_index(vals, c) >= 0 ==> vals[value_index(vals, c)].0 == c && value_of(vals, c) == Some(
            vals[value_index(vals, c)].1,
        ),
        value_index(vals, c) < 0 ==> value_of(vals, c) is None,
        value_index(vals, c) < 0 ==> forall|j: int| 0 <= j < vals.len() ==> vals[j].0 != c,
    decreases vals.len(),
{
    if vals.len() > 0 {
        lemma_value_index(vals.drop_last(), c);
        if value_index(vals.drop_last(), c) < 0 && vals.last().0 != c {
            assert forall|j: int| 0 <= j < vals.len() implies vals[j].0 != c by {
                if j < vals.len() - 1 {
                    assert(vals[j] == vals.drop_last()[j]);
                }
            }
        }
    }
}

proof fn lemma_vals_max(vals: Seq<(Cell, i128)>, c: Cell)
    requires
        forall|j: int| 0 <= j < vals.len() ==> vals[j].1 >= 0,
    ensures
        vals_max(vals) >= 0,
        value_of(vals, c) matches Some(v) ==> v <= vals_max(vals),
    decreases vals.len(),
{
    if vals.len() > 0 {
        lemma_vals_max(vals.drop_last(), c);
    }
}

fn find_value(vals: &Vec<(Cell, i128)>, c: Cell) -> (r: Option<usize>)
    ensures
        match r {
            Some(i) => value_index(vals@, c) == i,
            None => value_index(vals@, c) == -1,
        },
{
    let mut i: usize = 0;
    while i < vals.len()
        invariant
            i <= vals@.len(),
            value_index(vals@.take(i as int), c) == -1,
        decreases vals.len() - i,
    {
        proof {
            assert(vals@.take(i as int + 1).drop_last() =~= vals@.take(i as int));
        }
        if vals[i].0.0 == c.0 && vals[i].0.1 == c.1 {
            proof {
                lemma_value_index_prefix(vals@, c, i as int + 1);
            }
            return Some(i);
        }
        i = i + 1;
    }
    proof {
        assert(vals@.take(vals@.len() as int) =~= vals@);
    }
    None
}

/// A prefix that already names `c` decides where `c` is found.
proof fn lemma_value_index_prefix(vals: Seq<(Cell, i128)>, c: Cell, n: int)
    requires
        0 <= n <= vals.len(),
        value_index(vals.take(n), c) >= 0,
    ensures
        value_index(vals, c) == value_index(vals.take(n), c),
    decreases vals.len() - n,
{
    if n < vals.len() {
        assert(vals.take(n + 1).drop_last() =~= vals.take(n));
        lemma_value_index_prefix(vals, c, n + 1);
    } else {
        assert(vals.take(n) =~= vals);
    }
}

fn raise(vals: &mut Vec<(Cell, i128)>, c: Cell, v: i128)
    ensures
        final(vals)@ == put_max(old(vals)@, c, v),
{
    proof {
        lemma_value_index(vals@, c);
    }
    match find_value(vals, c) {
        Some(i) => {
            let old_v = vals[i].1;
            vals.set(i, (c, if old_v >= v { old_v } else { v }));
        },
        None => vals.push((c, v)),
    }
}

/// The power-ups reachable to stand on, each worth its kind.
pub open spec fn tv_powerups(s: SightView, ps: Seq<crate::world::PowerupView>) -> Seq<(Cell, i128)>
    decreases ps.len(),
{
    if ps.len() == 0 {
        Seq::empty()
    } else {
        let base = tv_powerups(s, ps.drop_last());
        let c = (ps.last().x as i32, ps.last().y as i32);
        if passable_spec(s, c) {
            put_max(base, c, powerup_value_spec(ps.last().kind) as i128)
        } else {
            base
        }
    }
}

pub open spec fn banned_at(banned: Seq<(Cell, u32)>, c: Cell) -> bool {
    exists|i: int| 0 <= i < banned.len() && banned[i].0 == c
}

/// Some enemy in `blast` has at most one way out.
pub open spec fn cornered_hit(w: WorldView, enemies: Seq<PlayerView>, blast: Seq<Cell>) -> bool {
    exists|i: int|
        0 <= i < enemies.len() && blast.contains((enemies[i].x as i32, enemies[i].y as i32))
            && cornered_spec(w, (enemies[i].x as i32, enemies[i].y as i32))
}

/// What a bomb on `c` would be worth: half a unit per crate on top of half
/// a unit, or two units and a half per enemy hit (one and a half more if one
/// of them is cornered); three fifths of that in an enemy's line, and scaled
/// down by how soon the border closes on `c` once sudden death is near.
pub open spec fn spot_value(s: SightView, me: PlayerView, enemies: Seq<PlayerView>, banned: Seq<(Cell, u32)>, c: Cell) -> int {
    if banned_at(banned, c) || !passable_spec(s, c) {
        0
    } else {
        let blast = blast_spec(s.w, c.0 as int, c.1 as int, me.flame);
        let crates = crates_in(s.w, blast);
        let hits = players_in(enemies, blast);
        let v0 = if crates > 0 {
            (crates + 1) * (VALUE_ONE / 2)
        } else {
            0
        };
        let v1 = if hits > 0 {
            let h = if v0 >= (4 + hits) * (VALUE_ONE / 2) {
                v0
            } else {
                (4 + hits) * (VALUE_ONE / 2)
            };
            if cornered_hit(s.w, enemies, blast) {
                h + 3 * (VALUE_ONE / 2)
            } else {
                h
            }
        } else {
            v0
        };
        if v1 > 0 {
            let v2 = if s.threat.contains(c) {
                v1 * 3 / 5
            } else {
                v1
            };
            if s.sd_prep {
                let ttc = close_time(s.closing, c);
                let share = if ttc < 180 {
                    180
                } else if ttc > SD_PREP_TICKS {
                    SD_PREP_TICKS as int
                } else {
                    ttc
                };
                v2 * share / (SD_PREP_TICKS as int)
            } else {
                v2
            }
        } else {
            0
        }
    }
}

/// The grid scanned row by row: rows above `y`, and the first `x` cells of
/// row `y`, each good bomb spot raising its entry.
pub open spec fn tv_grid(s: SightView, me: PlayerView, enemies: Seq<PlayerView>, banned: Seq<(Cell, u32)>, base: Seq<(Cell, i128)>, y: int, x: int) -> Seq<(Cell, i128)>
    decreases y, x,
{
    if x > 0 {
        let prev = tv_grid(s, me, enemies, banned, base, y, x - 1);
        let c = ((x - 1) as i32, y as i32);
        let v = spot_value(s, me, enemies, banned, c);
        if v > 0 {
            put_max(prev, c, v as i128)
        } else {
            prev
        }
    } else if y > 0 {
        tv_grid(s, me, enemies, banned, base, y - 1, s.w.width as int)
    } else {
        base
    }
}

/// Value per cell: a power-up there, or a good bomb spot.
pub open spec fn target_values_spec(s: SightView, me: PlayerView, enemies: Seq<PlayerView>, banned: Seq<(Cell, u32)>) -> Seq<(Cell, i128)> {
    tv_grid(s, me, enemies, banned, tv_powerups(s, s.w.powerups), s.w.height as int, 0)
}

fn is_banned(banned: &Vec<(Cell, u32)>, c: Cell) -> (r: bool)
    ensures
        r == banned_at(banned@, c),
{
    let mut i: usize = 0;
    while i < banned.len()
        invariant
            i <= banned@.len(),
            forall|j: int| 0 <= j < i ==> banned@[j].0 != c,
        decreases banned.len() - i,
    {
        if banned[i].0.0 == c.0 && banned[i].0.1 == c.1 {
            assert(banned@[i as int].0 == c);
            return true;
        }
        i = i + 1;
    }
    false
}

fn any_cornered(state: &World, enemies: &Vec<PlayerView>, blast: &Vec<Cell>) -> (r: bool)
    requires
        world_wf(state@),
    ensures
        r == cornered_hit(state@, enemies@, blast@),
{
    let mut i: usize = 0;
    while i < enemies.len()
        invariant
            world_wf(state@),
            i <= enemies@.len(),
            forall|j: int|
                0 <= j < i ==> !(blast@.contains((enemies@[j].x as i32, enemies@[j].y as i32))
                    && cornered_spec(state@, (enemies@[j].x as i32, enemies@[j].y as i32))),
        decreases enemies.len() - i,
    {
        let e: Cell = (enemies[i].x as i32, enemies[i].y as i32);
        if cell_in(blast, e) && is_cornered(state, e.0, e.1) {
            assert(blast@.contains((enemies@[i as int].x as i32, enemies@[i as int].y as i32))
                && cornered_spec(state@, (enemies@[i as int].x as i32, enemies@[i as int].y as i32)));
            return true;
        }
        i = i + 1;
    }
    false
}

impl Bot {
    fn spot_value(&self, world: &Sight, me: &PlayerView, enemies: &Vec<PlayerView>, c: Cell) -> (v: i128)
        requires
            sight_wf(world@),
            cell_in_range(c),
        ensures
            v == spot_value(world@, *me, enemies@, self.memo.banned@, c),
            0 <= v <= 0x10_0000_0000_0000_0000_0000_0000,
    {
        if is_banned(&self.memo.banned, c) || !world.passable(c) {
            return 0;
        }
        let state = world.state;
        let blast = blast_cells(state, c.0, c.1, me.flame);
        let crates = count_crates(state, &blast) as i128;
        let hits = count_players_in(enemies, &blast) as i128;
        assert(0 <= crates <= 0xffff_ffff_ffff_ffff && 0 <= hits <= 0xffff_ffff_ffff_ffff);
        let half: i128 = (VALUE_ONE / 2) as i128;
        let mut v: i128 = 0;
        if crates > 0 {
            v = (crates + 1) * half;
        }
        if hits > 0 {
            let h: i128 = (4 + hits) * half;
            if h > v {
                v = h;
            }
            if any_cornered(state, enemies, &blast) {
                v = v + 3 * half;
            }
        }
        assert(0 <= v <= 0x1_0000_0000_0000_0000_0000);
        if v > 0 {
            if cell_in(&world.threat, c) {
                v = v * 3 / 5;
            }
            if world.sd_prep {
                let ttc = world.time_to_close(c);
                let share: i64 = if ttc < 180 {
                    180
                } else if ttc > SD_PREP_TICKS {
                    SD_PREP_TICKS
                } else {
                    ttc
                };
                assert(0 <= v * share <= 0x1_0000_0000_0000_0000_0000_0000) by (nonlinear_arith)
                    requires
                        0 <= v <= 0x1_0000_0000_0000_0000_0000,
                        180 <= share <= 1200,
                ;
                v = v * share as i128 / SD_PREP_TICKS as i128;
            }
        }
        v
    }

    /// Value per cell: a power-up there, or a good bomb spot.
    pub fn target_values(&self, world: &Sight, me: &PlayerView, enemies: &Vec<PlayerView>) -> (vals: Vec<(Cell, i128)>)
        requires
            sight_wf(world@),
        ensures
            vals@ == target_values_spec(world@, *me, enemies@, self.memo.banned@),
            forall|j: int| 0 <= j < vals@.len() ==> 0 < #[trigger] vals@[j].1 <= 0x10_0000_0000_0000_0000_0000_0000,
    {
        let state = world.state;
        let mut vals: Vec<(Cell, i128)> = Vec::new();
        let mut i: usize = 0;
        while i < state.powerups.len()
            invariant
                sight_wf(world@),
                state@ == world@.w,
                i <= state.powerups@.len(),
                vals@ == tv_powerups(world@, state.powerups@.take(i as int)),
                forall|j: int| 0 <= j < vals@.len() ==> 0 < #[trigger] vals@[j].1 <= 0x10_0000_0000_0000_0000_0000_0000,
            decreases state.powerups.len() - i,
        {
            proof {
                assert(state.powerups@.take(i as int + 1).drop_last() =~= state.powerups@.take(i as int));
                lemma_value_index(vals@, (state.powerups@[i as int].x as i32, state.powerups@[i as int].y as i32));
            }
            let p = state.powerups[i];
            let c: Cell = (p.x as i32, p.y as i32);
            if world.passable(c) {
                raise(&mut vals, c, powerup_value(p.kind) as i128);
            }
            i = i + 1;
        }
        proof {
            assert(state.powerups@.take(state.powerups@.len() as int) =~= state.powerups@);
        }
        let ghost base = vals@;
        let mut y: i32 = 0;
        while y < state.height as i32
            invariant
                sight_wf(world@),
                state@ == world@.w,
                0 <= y <= state@.height,
                vals@ == tv_grid(world@, *me, enemies@, self.memo.banned@, base, y as int, 0),
                forall|j: int| 0 <= j < vals@.len() ==> 0 < #[trigger] vals@[j].1 <= 0x10_0000_0000_0000_0000_0000_0000,
            decreases state.height as i32 - y,
        {
            let mut x: i32 = 0;
            while x < state.width as i32
                invariant
                    sight_wf(world@),
                    state@ == world@.w,
                    0 <= y < state@.height,
                    0 <= x <= state@.width,
                    vals@ == tv_grid(world@, *me, enemies@, self.memo.banned@, base, y as int, x as int),
                    forall|j: int| 0 <= j < vals@.len() ==> 0 < #[trigger] vals@[j].1 <= 0x10_0000_0000_0000_0000_0000_0000,
                decreases state.width as i32 - x,
            {
                let c: Cell = (x, y);
                let v = self.spot_value(world, me, enemies, c);
                proof {
                    lemma_value_index(vals@, c);
                }
                if v > 0 {
                    raise(&mut vals, c, v);
                }
                x = x + 1;
            }
            proof {
                assert(tv_grid(world@, *me, enemies@, self.memo.banned@, base, y as int + 1, 0)
                    == tv_grid(world@, *me, enemies@, self.memo.banned@, base, y as int, state@.width as int));
            }
            y = y + 1;
        }
        vals
    }
}


/// A target worth heading for: it has a value, it is not where we already
/// stand still, and it is a haven when we get there.
pub open spec fn eligible(s: SightView, vals: Seq<(Cell, i128)>, start: Cell, t_free: int, step: int, c: Cell, k: int) -> bool {
    &&& value_of(vals, c) is Some
    &&& (c != start || t_free > 0)
    &&& haven_spec(s, c, t_at(t_free, step, k))
}

/// The value of reaching `c` after `k` moves is `util_num / util_den`: the
/// last target counts a fifth more.
pub open spec fn util_num(vals: Seq<(Cell, i128)>, target: Option<Cell>, c: Cell) -> int {
    value_of(vals, c).unwrap() * if target == Some(c) {
        5int
    } else {
        4int
    }
}

pub open spec fn util_den(k: int) -> int {
    4 * (k + 1)
}

/// The path plan_target hands out for node `m`: the tree path, or the cell
/// itself when the node is the root.
pub open spec fn target_path(nodes: Seq<(Cell, usize, usize)>, m: int) -> Seq<Cell> {
    if tree_path(nodes, m).len() == 0 {
        seq![nodes[m].0]
    } else {
        tree_path(nodes, m)
    }
}

/// The node plan_target settles on among the first `m` of a tree: the first
/// eligible one of highest utility, or -1 when none is eligible.
#[verifier::opaque]
pub open spec fn target_best_before(s: SightView, vals: Seq<(Cell, i128)>, target: Option<Cell>, start: Cell, t_free: int, step: int, nodes: Seq<(Cell, usize, usize)>, m: int) -> int
    decreases m,
{
    if m <= 0 {
        -1
    } else {
        let b = target_best_before(s, vals, target, start, t_free, step, nodes, m - 1);
        let x = m - 1;
        if eligible(s, vals, start, t_free, step, nodes[x].0, nodes[x].1 as int) && (b < 0 || util_num(
            vals,
            target,
            nodes[x].0,
        ) * util_den(nodes[b].1 as int) > util_num(vals, target, nodes[b].0) * util_den(
            nodes[x].1 as int,
        )) {
            x
        } else {
            b
        }
    }
}

/// The path plan_target returns: to its chosen node of the breadth-first
/// tree through havens, or none.
pub open spec fn plan_target_spec(s: SightView, vals: Seq<(Cell, i128)>, target: Option<Cell>, start: Cell, t_free: int, step: int) -> Seq<Cell> {
    let tree = bfs_tree(s, Moves::ThroughHavens, start, t_free, step);
    let b = target_best_before(s, vals, target, start, t_free, step, tree, tree.len() as int);
    if b < 0 {
        Seq::empty()
    } else {
        target_path(tree, b)
    }
}

/// One more node of the tree: the choice moves to it if it is eligible and
/// strictly better.
proof fn lemma_target_best_step(s: SightView, vals: Seq<(Cell, i128)>, target: Option<Cell>, start: Cell, t_free: int, step: int, nodes: Seq<(Cell, usize, usize)>, m: int)
    requires
        0 <= m,
    ensures
        target_best_before(s, vals, target, start, t_free, step, nodes, 0) == -1,
        ({
            let b = target_best_before(s, vals, target, start, t_free, step, nodes, m);
            target_best_before(s, vals, target, start, t_free, step, nodes, m + 1) == if eligible(
                s,
                vals,
                start,
                t_free,
                step,
                nodes[m].0,
                nodes[m].1 as int,
            ) && (b < 0 || util_num(vals, target, nodes[m].0) * util_den(nodes[b].1 as int) > util_num(
                vals,
                target,
                nodes[b].0,
            ) * util_den(nodes[m].1 as int)) {
                m
            } else {
                b
            }
        }),
{
    reveal(target_best_before);
}

/// Without an eligible node there is no choice.
proof fn lemma_target_best_none(s: SightView, vals: Seq<(Cell, i128)>, target: Option<Cell>, start: Cell, t_free: int, step: int, nodes: Seq<(Cell, usize, usize)>, m: int)
    requires
        forall|x: int| 0 <= x < m ==> !eligible(s, vals, start, t_free, step, #[trigger] nodes[x].0, nodes[x].1 as int),
    ensures
        target_best_before(s, vals, target, start, t_free, step, nodes, m) == -1,
    decreases m,
{
    reveal(target_best_before);
    if m > 0 {
        lemma_target_best_none(s, vals, target, start, t_free, step, nodes, m - 1);
    }
}

/// Nodes that cannot beat the chosen one leave the choice alone.
proof fn lemma_target_best_stable(s: SightView, vals: Seq<(Cell, i128)>, target: Option<Cell>, start: Cell, t_free: int, step: int, nodes: Seq<(Cell, usize, usize)>, m: int, n: int)
    requires
        0 <= m <= n,
        target_best_before(s, vals, target, start, t_free, step, nodes, m) >= 0,
        forall|x: int|
            m <= x < n && eligible(s, vals, start, t_free, step, #[trigger] nodes[x].0, nodes[x].1 as int) ==> util_num(
                vals,
                target,
                nodes[x].0,
            ) * util_den(nodes[target_best_before(s, vals, target, start, t_free, step, nodes, m)].1 as int)
                <= util_num(vals, target, nodes[target_best_before(s, vals, target, start, t_free, step, nodes, m)].0) * util_den(
                nodes[x].1 as int,
            ),
    ensures
        target_best_before(s, vals, target, start, t_free, step, nodes, n) == target_best_before(
            s,
            vals,
            target,
            start,
            t_free,
            step,
            nodes,
            m,
        ),
    decreases n - m,
{
    reveal(target_best_before);
    if n > m {
        lemma_target_best_stable(s, vals, target, start, t_free, step, nodes, m, n - 1);
        let x = n - 1;
        assert(m <= x < n);
        if eligible(s, vals, start, t_free, step, nodes[x].0, nodes[x].1 as int) {
        }
    }
}

fn max_value(vals: &Vec<(Cell, i128)>) -> (m: i128)
    requires
        forall|j: int| 0 <= j < vals@.len() ==> 0 < #[trigger] vals@[j].1 <= 0x10_0000_0000_0000_0000_0000_0000,
    ensures
        m == vals_max(vals@),
        0 <= m <= 0x10_0000_0000_0000_0000_0000_0000,
{
    let mut m: i128 = 0;
    let mut i: usize = 0;
    while i < vals.len()
        invariant
            i <= vals@.len(),
            forall|j: int| 0 <= j < vals@.len() ==> 0 < #[trigger] vals@[j].1 <= 0x10_0000_0000_0000_0000_0000_0000,
            m == vals_max(vals@.take(i as int)),
            0 <= m <= 0x10_0000_0000_0000_0000_0000_0000,
        decreases vals.len() - i,
    {
        proof {
            assert(vals@.take(i as int + 1).drop_last() =~= vals@.take(i as int));
        }
        if vals[i].1 > m {
            m = vals[i].1;
        }
        i = i + 1;
    }
    proof {
        assert(vals@.take(vals@.len() as int) =~= vals@);
    }
    m
}

/// a / da <= b / db < c / dc, so a / da <= c / dc.
proof fn lemma_frac_trans(a: int, da: int, b: int, db: int, c: int, dc: int)
    requires
        da > 0,
        db > 0,
        dc > 0,
        a * db <= b * da,
        b * dc < c * db,
    ensures
        a * dc <= c * da,
{
    assert(a * db * dc <= b * da * dc) by (nonlinear_arith)
        requires
            a * db <= b * da,
            dc > 0,
    ;
    assert(b * dc * da < c * db * da) by (nonlinear_arith)
        requires
            b * dc < c * db,
            da > 0,
    ;
    assert(a * dc * db <= c * da * db) by (nonlinear_arith)
        requires
            a * db * dc <= b * da * dc,
            b * dc * da < c * db * da,
    ;
    assert(a * dc <= c * da) by (nonlinear_arith)
        requires
            a * dc * db <= c * da * db,
            db > 0,
    ;
}

/// Past the point where even the best value could not beat the best found,
/// nothing deeper beats it either.
proof fn lemma_break_bound(v: int, h: int, vmax: int, k0: int, k: int, bnum: int, bden: int)
    requires
        0 <= v <= vmax,
        h == 4 || h == 5,
        0 <= k0 <= k,
        bden > 0,
        bnum >= 0,
        vmax * 5 * bden <= bnum * (4 * (k0 + 1)),
    ensures
        v * h * bden <= bnum * (4 * (k + 1)),
{
    assert(v * h * bden <= vmax * 5 * bden) by (nonlinear_arith)
        requires
            0 <= v <= vmax,
            h <= 5,
            h >= 0,
            bden > 0,
    ;
    assert(bnum * (4 * (k0 + 1)) <= bnum * (4 * (k + 1))) by (nonlinear_arith)
        requires
            bnum >= 0,
            k0 <= k,
    ;
}

impl Bot {
    /// Path to the best target: value / (steps + 1), with a fifth more for
    /// the last target. Empty when nothing is safely reachable; otherwise the
    /// target is remembered.
    #[verifier::spinoff_prover]
    #[verifier::rlimit(100)]
    fn plan_target(&mut self, world: &Sight, me: &PlayerView, step: i64, t_free: i64, enemies: &Vec<PlayerView>) -> (path: Vec<Cell>)
        requires
            sight_wf(world@),
            0 <= t_free <= 1000,
            0 <= step <= 1000,
        ensures
            ({
                let s = world@;
                let start = (me.x as i32, me.y as i32);
                let vals = target_values_spec(s, *me, enemies@, old(self).memo.banned@);
                let target = old(self).memo.target;
                &&& path@.len() == 0 ==> final(self).memo == old(self).memo
                &&& path@.len() == 0 ==> forall|q: Seq<Cell>|
                    walk_from(s, Moves::ThroughHavens, start, t_free as int, step as int, q) ==> !eligible(
                        s,
                        vals,
                        start,
                        t_free as int,
                        step as int,
                        walk_end(start, q),
                        q.len() as int,
                    )
                &&& path@.len() > 0 ==> exists|k: int| {
                    &&& ((k == path@.len() && walk_from(s, Moves::ThroughHavens, start, t_free as int, step as int, path@))
                        || (k == 0 && path@ == seq![start]))
                    &&& eligible(s, vals, start, t_free as int, step as int, path@.last(), k)
                    &&& forall|q: Seq<Cell>|
                        walk_from(s, Moves::ThroughHavens, start, t_free as int, step as int, q) && eligible(
                            s,
                            vals,
                            start,
                            t_free as int,
                            step as int,
                            walk_end(start, q),
                            q.len() as int,
                        ) ==> util_num(vals, target, walk_end(start, q)) * util_den(k) <= util_num(
                            vals,
                            target,
                            path@.last(),
                        ) * util_den(q.len() as int)
                }
                &&& path@.len() > 0 ==> final(self).memo == (Memo { target: Some(path@.last()), ..old(self).memo })
                &&& path@ == plan_target_spec(s, vals, target, start, t_free as int, step as int)
            }),
            forall|i: int| 0 <= i < path@.len() ==> cell_in_range(#[trigger] path@[i]),
    {
        let ghost s = world@;
        let vals = self.target_values(world, me, enemies);
        let start: Cell = (me.x as i32, me.y as i32);
        if vals.len() == 0 {
            proof {
                let tree = bfs_tree(s, Moves::ThroughHavens, start, t_free as int, step as int);
                assert forall|x: int| 0 <= x < tree.len() implies !eligible(
                    s,
                    vals@,
                    start,
                    t_free as int,
                    step as int,
                    #[trigger] tree[x].0,
                    tree[x].1 as int,
                ) by {
                    lemma_value_index(vals@, tree[x].0);
                }
                lemma_target_best_none(s, vals@, self.memo.target, start, t_free as int, step as int, tree, tree.len() as int);
                assert forall|q: Seq<Cell>|
                    walk_from(s, Moves::ThroughHavens, start, t_free as int, step as int, q) implies !eligible(
                    s,
                    vals@,
                    start,
                    t_free as int,
                    step as int,
                    walk_end(start, q),
                    q.len() as int,
                ) by {
                    lemma_value_index(vals@, walk_end(start, q));
                }
            }
            return Vec::new();
        }
        let vmax = max_value(&vals);
        let vmax5: i128 = vmax * 5;
        let target = self.memo.target;
        let nodes = explore(world, start, t_free, step, Moves::ThroughHavens);
        let mut best_num: i128 = 0;
        let mut best_den: i128 = 1;
        let mut best: Option<(Vec<Cell>, Cell)> = None;
        let ghost mut best_m: int = 0;
        let mut done = false;
        let mut m: usize = 0;
        proof {
            lemma_target_best_step(s, vals@, target, start, t_free as int, step as int, nodes@, 0);
        }
        while m < nodes.len() && !done
            invariant
                nodes@ == bfs_tree(s, Moves::ThroughHavens, start, t_free as int, step as int),
                best is None <==> target_best_before(s, vals@, target, start, t_free as int, step as int, nodes@, m as int) < 0,
                best is Some ==> best_m == target_best_before(s, vals@, target, start, t_free as int, step as int, nodes@, m as int),
                s == world@,
                sight_wf(s),
                0 <= t_free <= 1000,
                0 <= step <= 1000,
                vals@ == target_values_spec(s, *me, enemies@, self.memo.banned@),
                forall|j: int| 0 <= j < vals@.len() ==> 0 < #[trigger] vals@[j].1 <= 0x10_0000_0000_0000_0000_0000_0000,
                vmax == vals_max(vals@),
                0 <= vmax <= 0x10_0000_0000_0000_0000_0000_0000,
                vmax5 == vmax * 5,
                target == self.memo.target,
                tree_ok(s, Moves::ThroughHavens, start, t_free as int, step as int, nodes@),
                forall|x: int| 0 <= x < nodes@.len() ==> cell_in_range(#[trigger] nodes@[x].0),
                m <= nodes@.len(),
                0 < best_den <= 84,
                0 <= best_num <= 0x100_0000_0000_0000_0000_0000_0000,
                best is None ==> best_num == 0 && best_den == 1,
                best is None ==> forall|x: int|
                    0 <= x < m ==> !eligible(s, vals@, start, t_free as int, step as int, #[trigger] nodes@[x].0, nodes@[x].1 as int),
                best matches Some((p, c)) ==> {
                    &&& 0 <= best_m < m
                    &&& eligible(s, vals@, start, t_free as int, step as int, nodes@[best_m].0, nodes@[best_m].1 as int)
                    &&& c == nodes@[best_m].0
                    &&& p@ == target_path(nodes@, best_m)
                    &&& best_num == util_num(vals@, target, c)
                    &&& best_den == util_den(nodes@[best_m].1 as int)
                },
                forall|x: int|
                    0 <= x < m && eligible(s, vals@, start, t_free as int, step as int, #[trigger] nodes@[x].0, nodes@[x].1 as int)
                        ==> util_num(vals@, target, nodes@[x].0) * best_den <= best_num * util_den(nodes@[x].1 as int),
                done ==> m < nodes@.len() && vmax5 * best_den <= best_num * util_den(nodes@[m as int].1 as int),
            decreases nodes@.len() - m + if done { 0int } else { 1int },
        {
            let (cell, k, _) = nodes[m];
            assert(k <= K_MAX);
            assert(0 <= k as int * step <= 20000) by (nonlinear_arith)
                requires
                    k <= 20,
                    0 <= step <= 1000,
            ;
            let t: i64 = t_free + k as i64 * step;
            let den: i128 = 4 * (k as i128 + 1);
            assert(vmax5 * best_den <= 0x1_0000_0000_0000_0000_0000_0000_0000) by (nonlinear_arith)
                requires
                    0 <= vmax5 <= 5 * 0x10_0000_0000_0000_0000_0000_0000,
                    0 < best_den <= 84,
            ;
            assert(best_num * den <= 0x1_0000_0000_0000_0000_0000_0000_0000) by (nonlinear_arith)
                requires
                    0 <= best_num <= 0x100_0000_0000_0000_0000_0000_0000,
                    0 < den <= 84,
            ;
            if vmax5 * best_den <= best_num * den {
                done = true;
            } else {
                proof {
                    lemma_value_index(vals@, cell);
                }
                match find_value(&vals, cell) {
                    Some(i) => {
                        let here = cell.0 != start.0 || cell.1 != start.1;
                        if (here || t_free > 0) && world.haven(cell, t) {
                            let h: i128 = match target {
                                Some(tc) => if tc.0 == cell.0 && tc.1 == cell.1 { 5 } else { 4 },
                                None => 4,
                            };
                            let num: i128 = vals[i].1 * h;
                            assert(num * best_den <= 0x1_0000_0000_0000_0000_0000_0000_0000) by (nonlinear_arith)
                                requires
                                    0 <= num <= 5 * 0x10_0000_0000_0000_0000_0000_0000,
                                    0 < best_den <= 84,
                            ;
                            if num * best_den > best_num * den {
                                proof {
                                    assert forall|x: int|
                                        0 <= x < m && eligible(s, vals@, start, t_free as int, step as int, #[trigger] nodes@[x].0, nodes@[x].1 as int)
                                            implies util_num(vals@, target, nodes@[x].0) * den <= num * util_den(nodes@[x].1 as int) by {
                                        lemma_value_index(vals@, nodes@[x].0);
                                        lemma_frac_trans(
                                            util_num(vals@, target, nodes@[x].0),
                                            util_den(nodes@[x].1 as int),
                                            best_num as int,
                                            best_den as int,
                                            num as int,
                                            den as int,
                                        );
                                    }
                                }
                                let mut path = extract_path(&nodes, m);
                                if path.len() == 0 {
                                    path = Vec::new();
                                    path.push(cell);
                                }
                                best = Some((path, cell));
                                best_num = num;
                                best_den = den;
                                proof {
                                    best_m = m as int;
                                }
                            }
                        }
                    },
                    None => {},
                }
                proof {
                    lemma_target_best_step(s, vals@, target, start, t_free as int, step as int, nodes@, m as int);
                }
                m = m + 1;
            }
        }
        proof {
            assert forall|x: int|
                0 <= x < nodes@.len() && eligible(s, vals@, start, t_free as int, step as int, #[trigger] nodes@[x].0, nodes@[x].1 as int)
                    implies util_num(vals@, target, nodes@[x].0) * best_den <= best_num * util_den(nodes@[x].1 as int) by {
                if x >= m {
                    let c = nodes@[x].0;
                    lemma_value_index(vals@, c);
                    lemma_vals_max(vals@, c);
                    let h = if target == Some(c) { 5int } else { 4int };
                    lemma_break_bound(
                        value_of(vals@, c).unwrap() as int,
                        h,
                        vmax as int,
                        nodes@[m as int].1 as int,
                        nodes@[x].1 as int,
                        best_num as int,
                        best_den as int,
                    );
                }
            }
        }
        proof {
            if done {
                assert(vmax > 0) by {
                    assert(vals@.last().1 > 0);
                }
                assert(best is Some);
                lemma_target_best_stable(
                    s,
                    vals@,
                    target,
                    start,
                    t_free as int,
                    step as int,
                    nodes@,
                    m as int,
                    nodes@.len() as int,
                );
            }
        }
        match best {
            None => {
                proof {
                    assert forall|q: Seq<Cell>|
                        walk_from(s, Moves::ThroughHavens, start, t_free as int, step as int, q) implies !eligible(
                        s,
                        vals@,
                        start,
                        t_free as int,
                        step as int,
                        walk_end(start, q),
                        q.len() as int,
                    ) by {
                        lemma_tree_complete(s, Moves::ThroughHavens, start, t_free as int, step as int, nodes@, q);
                        let x = choose|x: int|
                            0 <= x < nodes@.len() && nodes@[x].1 == q.len() && nodes@[x].0 == walk_end(start, q);
                        if eligible(s, vals@, start, t_free as int, step as int, nodes@[x].0, nodes@[x].1 as int) {
                            lemma_value_index(vals@, nodes@[x].0);
                            assert(util_num(vals@, target, nodes@[x].0) > 0);
                        }
                    }
                }
                Vec::new()
            },
            Some((path, cell)) => {
                proof {
                    let bk = nodes@[best_m].1 as int;
                    lemma_tree_path(s, Moves::ThroughHavens, start, t_free as int, step as int, nodes@, best_m);
                    if tree_path(nodes@, best_m).len() == 0 {
                        assert(bk == 0);
                        assert(nodes@[best_m].0 == start);
                    }
                    assert(path@.last() == cell);
                    assert forall|q: Seq<Cell>|
                        walk_from(s, Moves::ThroughHavens, start, t_free as int, step as int, q) && eligible(
                            s,
                            vals@,
                            start,
                            t_free as int,
                            step as int,
                            walk_end(start, q),
                            q.len() as int,
                        ) implies util_num(vals@, target, walk_end(start, q)) * util_den(bk) <= util_num(
                        vals@,
                        target,
                        path@.last(),
                    ) * util_den(q.len() as int) by {
                        lemma_tree_complete(s, Moves::ThroughHavens, start, t_free as int, step as int, nodes@, q);
                        let x = choose|x: int|
                            0 <= x < nodes@.len() && nodes@[x].1 == q.len() && nodes@[x].0 == walk_end(start, q);
                        assert(eligible(s, vals@, start, t_free as int, step as int, nodes@[x].0, nodes@[x].1 as int));
                    }
                    assert((bk == path@.len() && walk_from(s, Moves::ThroughHavens, start, t_free as int, step as int, path@))
                        || (bk == 0 && path@ == seq![start]));
                    assert forall|i: int| 0 <= i < path@.len() implies cell_in_range(#[trigger] path@[i]) by {
                        if tree_path(nodes@, best_m).len() > 0 {
                            lemma_path_cells_in_range(nodes@, best_m, i);
                        }
                    }
                }
                self.memo.target = Some(cell);
                path
            },
        }
    }
}


// -- deciding ------------------------------------------------------------------------

/// The numbers the memory holds are small enough to compute with.
pub open spec fn memo_wf(m: Memo) -> bool {
    &&& forall|i: int| 0 <= i < m.plan@.len() ==> cell_in_range(#[trigger] m.plan@[i])
    &&& m.plan_start matches Some(c) ==> cell_in_range(c)
    &&& m.bomb_action matches Some(b) ==> cell_in_range(b.cell) && forall|i: int|
        0 <= i < b.path@.len() ==> cell_in_range(#[trigger] b.path@[i])
    &&& m.bomb_action matches Some(b) ==> bomb_and_step(b.action)
}

/// A bomb dropped, then a step: the only commands a saved bomb repeats.
pub open spec fn bomb_and_step(a: Action) -> bool {
    a == Action::UpBomb || a == Action::DownBomb || a == Action::LeftBomb || a == Action::RightBomb
}

/// What the bot ever answers: standing still, a step, or a bomb and a step.
pub open spec fn bot_action(a: Action) -> bool {
    a == Action::Idle || a == Action::Up || a == Action::Down || a == Action::Left || a
        == Action::Right || bomb_and_step(a)
}

/// The step of the plan due at wall clock `now`, if any.
pub open spec fn replay_index(m: Memo, now: u64) -> int {
    let elapsed0 = now as int - m.plan_t0 as int - m.plan_delay as int * CLOCK_PER_TICK as int
        - CLOCK_PER_TICK as int;
    let elapsed = if elapsed0 > 0 {
        elapsed0
    } else {
        0
    };
    let slot = m.plan_step as int * CLOCK_PER_TICK as int;
    if slot > 0 {
        elapsed / slot
    } else if elapsed == 0 {
        0
    } else {
        m.plan@.len() as int
    }
}

/// Dead reckoning: the plan followed by wall clock, one step per slot, a tick
/// late so it never runs ahead of the server; the last step is sent only in
/// the first half of its slot.
pub open spec fn replay_spec(m: Memo, now: u64) -> Action {
    let plan = m.plan@;
    let idx = replay_index(m, now);
    let elapsed0 = now as int - m.plan_t0 as int - m.plan_delay as int * CLOCK_PER_TICK as int
        - CLOCK_PER_TICK as int;
    let elapsed = if elapsed0 > 0 {
        elapsed0
    } else {
        0
    };
    let slot = m.plan_step as int * CLOCK_PER_TICK as int;
    if plan.len() == 0 || idx >= plan.len() {
        Action::Idle
    } else if idx == plan.len() - 1 && slot > 0 && 2 * (elapsed - idx * slot) > slot {
        Action::Idle
    } else {
        let prev = if idx == 0 {
            match m.plan_start {
                Some(c) => c,
                None => plan[0],
            }
        } else {
            plan[idx - 1]
        };
        let next = plan[idx];
        if next == prev {
            Action::Idle
        } else {
            step_action_spec(((next.0 - prev.0) as i32, (next.1 - prev.1) as i32))
        }
    }
}

/// The bomb command sent last tick evidently never arrived: we stand where
/// it was sent, not moving, and no bomb is there.
pub open spec fn bomb_lost(m: Memo, w: WorldView, me: PlayerView, at_tick: Option<u32>) -> bool {
    match (at_tick, m.bomb_action) {
        (Some(at), Some(saved)) => {
            &&& m.bomb_sent_tick == Some(if at == 0 { u32::MAX } else { (at - 1) as u32 })
            &&& !me.moving
            &&& (me.x as i32, me.y as i32) == saved.cell
            &&& !crate::world::has_bomb_at(w, saved.cell.0 as int, saved.cell.1 as int)
        },
        _ => false,
    }
}

/// A new match (other id, or the tick went backwards).
pub open spec fn new_match(m: Memo, match_id: Option<u32>, at_tick: Option<u32>) -> bool {
    match_id != m.match_id || match (at_tick, m.tick) {
        (Some(now), Some(before)) => now < before,
        _ => false,
    }
}

impl Bot {
    /// Dead reckoning: without a new state, follow the last (time-checked)
    /// plan by wall clock, one step per slot. Never re-bombs.
    fn replay(&self, now: u64) -> (a: Action)
        requires
            memo_wf(self.memo),
        ensures
            a == replay_spec(self.memo, now),
            without_bomb_spec(a) is None,
    {
        let plan = &self.memo.plan;
        if plan.len() == 0 {
            return Action::Idle;
        }
        let elapsed0: i128 = now as i128 - self.memo.plan_t0 as i128 - self.memo.plan_delay as i128
            * CLOCK_PER_TICK as i128 - CLOCK_PER_TICK as i128;
        let elapsed: i128 = if elapsed0 > 0 { elapsed0 } else { 0 };
        let slot: i128 = self.memo.plan_step as i128 * CLOCK_PER_TICK as i128;
        let idx: i128 = if slot > 0 {
            elapsed / slot
        } else if elapsed == 0 {
            0
        } else {
            plan.len() as i128
        };
        if idx >= plan.len() as i128 {
            return Action::Idle;
        }
        let i = idx as usize;
        if i == plan.len() - 1 && slot > 0 {
            assert(0 <= idx * slot <= elapsed) by (nonlinear_arith)
                requires
                    slot > 0,
                    elapsed >= 0,
                    idx == elapsed / slot,
            ;
            if 2 * (elapsed - idx * slot) > slot {
                return Action::Idle;
            }
        }
        let prev = if i == 0 {
            match self.memo.plan_start {
                Some(c) => c,
                None => plan[0],
            }
        } else {
            plan[i - 1]
        };
        let next = plan[i];
        if next.0 == prev.0 && next.1 == prev.1 {
            return Action::Idle;
        }
        step_action((next.0 - prev.0, next.1 - prev.1))
    }

    /// Repeat last tick's bomb command once if it evidently never arrived.
    ///
    /// The server takes only the newest packet per tick window, so a bomb and
    /// a following packet in the same window lose the bomb. Repeating is
    /// harmless: if the first one landed, either the step is under way
    /// (actions mid-step are ignored) or the bomb is already there.
    fn lost_bomb_action(&mut self, state: &World, me: &PlayerView, at_tick: Option<u32>) -> (r: Option<Decision>)
        ensures
            r is Some <==> bomb_lost(old(self).memo, state@, *me, at_tick),
            r matches Some(d) ==> (old(self).memo.bomb_action matches Some(saved) && d.action == saved.action
                && d.path@ == saved.path@ && d.start == saved.cell && d.step == saved.step && d.t_free
                == saved.t_free),
            r is Some ==> final(self).memo == (Memo { bomb_action: None, ..old(self).memo }),
            r is None ==> final(self).memo == old(self).memo,
    {
        let at = match at_tick {
            Some(at) => at,
            None => return None,
        };
        match &self.memo.bomb_action {
            None => return None,
            Some(saved) => {
                let before = at.wrapping_sub(1);
                match self.memo.bomb_sent_tick {
                    Some(sent) => {
                        if sent != before {
                            return None;
                        }
                    },
                    None => return None,
                }
                if me.moving || me.x as i32 != saved.cell.0 || me.y as i32 != saved.cell.1 {
                    return None;
                }
                if state.bomb_at(saved.cell.0, saved.cell.1) {
                    return None;
                }
            },
        }
        let saved = self.memo.bomb_action.take();
        match saved {
            Some(saved) => Some(
                Decision {
                    action: saved.action,
                    path: saved.path,
                    start: saved.cell,
                    step: saved.step,
                    t_free: saved.t_free,
                },
            ),
            None => None,
        }
    }

    /// A new match (other id, or the tick went backwards) clears the memory.
    /// Ticks from the last match would otherwise keep cooldowns running for
    /// minutes.
    fn forget_previous_match(&mut self, match_id: Option<u32>, at_tick: Option<u32>)
        ensures
            new_match(old(self).memo, match_id, at_tick) ==> memo_fresh(
                Memo { match_id: None, ..final(self).memo },
            ) && final(self).memo.match_id == match_id,
            !new_match(old(self).memo, match_id, at_tick) ==> final(self).memo == old(self).memo,
    {
        let same_id = match (match_id, self.memo.match_id) {
            (Some(a), Some(b)) => a == b,
            (None, None) => true,
            _ => false,
        };
        let went_back = match (at_tick, self.memo.tick) {
            (Some(now), Some(before)) => now < before,
            _ => false,
        };
        if !same_id || went_back {
            self.reset();
            self.memo.match_id = match_id;
        }
    }
}


pub open spec fn now_of(at_tick: Option<u32>) -> u32 {
    match at_tick {
        Some(t) => t,
        None => 0,
    }
}

/// Bans that have not run out at `at`.
pub open spec fn keep_banned(b: Seq<(Cell, u32)>, at: u32) -> Seq<(Cell, u32)>
    decreases b.len(),
{
    if b.len() == 0 {
        Seq::empty()
    } else {
        keep_banned(b.drop_last(), at) + if b.last().1 > at {
            seq![b.last()]
        } else {
            Seq::empty()
        }
    }
}

/// What a fresh decision promises: survival first -- off a cell that is no
/// haven by the plan to the nearest escape --, a bomb only when it pays, a
/// bomb is free, and the cell next to it leads to a haven fastest; every
/// other action is the first move of the plan it comes with.
pub open spec fn fresh_ok(sent: Option<u32>, w: WorldView, rules: Rules, me: PlayerView, at_tick: Option<u32>, action: Action, path: Seq<Cell>) -> bool {
    let cur = (me.x as i32, me.y as i32);
    let step = step_of(rules, me);
    let t_free = t_free_of(rules, me);
    let now_tick = now_of(at_tick);
    let s = sight_spec(w, rules, me.id, None, now_tick);
    let sa = sight_spec(w, rules, me.id, Some((cur, me.flame)), now_tick);
    &&& without_bomb_spec(action) is None ==> action == first_action_spec(cur, path)
    &&& !haven_spec(s, cur, t_free) ==> {
        &&& without_bomb_spec(action) is None
        &&& walk_from(s, Moves::Walk, cur, t_free, step, path)
        &&& goal_reachable(s, cur, t_free, step, Goal::Haven) ==> {
            let g = escape_goal(s, cur, t_free, step);
            &&& goal_spec(s, g, walk_end(cur, path), t_at(t_free, step, path.len() as int))
            &&& path.len() == goal_dist(s, cur, t_free, step, g)
        }
    }
    &&& without_bomb_spec(action) is Some ==> {
        &&& t_free == 0
        &&& haven_spec(s, cur, 0)
        &&& !bomb_unavailable_at(sent, w, me, now_tick)
        &&& bomb_worth_spec(w, me, enemies_from(w.players, me.id))
        &&& exists|d: int|
            best_attack(sa, cur, step, d) && action == step_bomb_action_spec(dir_spec(d)) && path[0]
                == neighbour(cur, d) && path.len() == 1 + attack_len(sa, cur, d, step)
    }
}

/// `c` banned until `until`: its entry changed, or one added.
pub open spec fn ban_spec(b: Seq<(Cell, u32)>, c: Cell, until: u32) -> Seq<(Cell, u32)> {
    if exists|i: int| 0 <= i < b.len() && b[i].0 == c {
        Seq::new(b.len(), |i: int| if b[i].0 == c { (c, until) } else { b[i] })
    } else {
        b.push((c, until))
    }
}

fn ban(banned: &mut Vec<(Cell, u32)>, c: Cell, until: u32)
    ensures
        final(banned)@ == ban_spec(old(banned)@, c, until),
{
    let ghost b0 = banned@;
    let mut found = false;
    let mut i: usize = 0;
    while i < banned.len()
        invariant
            i <= b0.len(),
            banned@.len() == b0.len(),
            found <==> exists|j: int| 0 <= j < i && b0[j].0 == c,
            forall|j: int| 0 <= j < i ==> banned@[j] == if b0[j].0 == c { (c, until) } else { b0[j] },
            forall|j: int| i <= j < b0.len() ==> banned@[j] == b0[j],
        decreases b0.len() - i,
    {
        assert(banned@[i as int] == b0[i as int]);
        if banned[i].0.0 == c.0 && banned[i].0.1 == c.1 {
            banned.set(i, (c, until));
            found = true;
            assert(b0[i as int].0 == c);
        } else {
            assert(b0[i as int].0 != c);
        }
        i = i + 1;
    }
    if !found {
        banned.push((c, until));
        assert(banned@ =~= ban_spec(b0, c, until));
    } else {
        assert(banned@ =~= ban_spec(b0, c, until));
    }
}

/// A fresh decision, as the action, the plan, and the target and bans it
/// leaves in the memory: survive first; then bomb where it pays; wait on a
/// chosen spot until a bomb is free, or give the spot up; then head for the
/// best target, else, with no target, inward ahead of sudden death or out of
/// an enemy's bomb line.
pub open spec fn fresh_spec(target: Option<Cell>, bans: Seq<(Cell, u32)>, sent: Option<u32>, last_move: Option<u32>, w: WorldView, rules: Rules, me: PlayerView, at_tick: Option<u32>) -> (Action, Seq<Cell>, Option<Cell>, Seq<(Cell, u32)>) {
    let step = step_of(rules, me);
    let t_free = t_free_of(rules, me);
    let now = now_of(at_tick);
    let enemies = enemies_from(w.players, me.id);
    let s = sight_spec(w, rules, me.id, None, now);
    let cur = (me.x as i32, me.y as i32);
    let banned = match at_tick {
        Some(at) => keep_banned(bans, at),
        None => bans,
    };
    let attack = attack_spec(sent, last_move, w, rules, me, enemies, step, now);
    if !haven_spec(s, cur, t_free) {
        let p = escape_spec(s, cur, t_free, step).0;
        (first_action_spec(cur, p), p, target, banned)
    } else if t_free == 0 && attack is Some {
        (attack.unwrap().0, attack.unwrap().1, target, banned)
    } else if t_free == 0 && target == Some(cur) && at_tick is Some && bomb_unavailable_at(
        sent,
        w,
        me,
        now,
    ) && bomb_worth_spec(w, me, enemies) && !s.threat.contains(cur) {
        (Action::Idle, Seq::empty(), target, banned)
    } else if t_free != 0 && target == Some(cur) {
        (Action::Idle, Seq::empty(), target, banned)
    } else {
        let dropped = t_free == 0 && target == Some(cur) && at_tick is Some;
        let target2 = if dropped {
            None
        } else {
            target
        };
        let banned2 = if dropped {
            ban_spec(banned, cur, (at_tick.unwrap() + rules.bomb_fuse_ticks) as u32)
        } else {
            banned
        };
        let vals = target_values_spec(s, me, enemies, banned2);
        let p0 = plan_target_spec(s, vals, target2, cur, t_free, step);
        let target3 = if p0.len() > 0 {
            Some(p0.last())
        } else {
            target2
        };
        let p1 = if p0.len() == 0 && s.sd_prep && close_time(s.closing, cur) < SD_DEEP_TICKS {
            let deep = search_spec(s, cur, t_free, step, Goal::DeepHaven);
            if deep.1 {
                deep.0
            } else {
                latest_closing_spec(s, cur, t_free, step)
            }
        } else {
            p0
        };
        let p2 = if p1.len() == 0 && s.threat.contains(cur) {
            let quiet = search_spec(s, cur, t_free, step, Goal::QuietHaven);
            if quiet.1 {
                quiet.0
            } else {
                Seq::empty()
            }
        } else {
            p1
        };
        (first_action_spec(cur, p2), p2, target3, banned2)
    }
}

impl Bot {
    #[verifier::spinoff_prover]
    #[verifier::rlimit(60)]
    fn decide_fresh(&mut self, state: &World, rules: &Rules, me: &PlayerView, at_tick: Option<u32>) -> (d: Decision)
        requires
            world_wf(state@),
            memo_wf(old(self).memo),
            at_tick matches Some(at) ==> at + rules.bomb_fuse_ticks <= u32::MAX,
        ensures
            memo_wf(final(self).memo),
            d.start == (me.x as i32, me.y as i32),
            d.step == step_of(*rules, *me),
            d.t_free == t_free_of(*rules, *me),
            forall|i: int| 0 <= i < d.path@.len() ==> cell_in_range(#[trigger] d.path@[i]),
            fresh_ok(old(self).memo.bomb_sent_tick, state@, *rules, *me, at_tick, d.action, d.path@),
            final(self).memo.tick == old(self).memo.tick,
            final(self).memo.plan == old(self).memo.plan,
            final(self).memo.plan_start == old(self).memo.plan_start,
            final(self).memo.bomb_sent_tick == old(self).memo.bomb_sent_tick,
            final(self).memo.last_move_tick == old(self).memo.last_move_tick,
            final(self).memo.match_id == old(self).memo.match_id,
            final(self).memo.bomb_action == old(self).memo.bomb_action,
            at_tick matches Some(at) ==> (final(self).memo.banned@ == keep_banned(old(self).memo.banned@, at)
                || final(self).memo.banned@ == ban_spec(
                keep_banned(old(self).memo.banned@, at),
                (me.x as i32, me.y as i32),
                (at + rules.bomb_fuse_ticks) as u32,
            )),
            at_tick is None ==> final(self).memo.banned == old(self).memo.banned,
            (d.action, d.path@, final(self).memo.target, final(self).memo.banned@) == fresh_spec(
                old(self).memo.target,
                old(self).memo.banned@,
                old(self).memo.bomb_sent_tick,
                old(self).memo.last_move_tick,
                state@,
                *rules,
                *me,
                at_tick,
            ),
    {
        let ghost memo0 = self.memo;
        let step: i64 = rules.ticks_per_cell_at(me.speed) as i64;
        let t_free: i64 = if me.moving && step - (me.move_progress as i64) > 0 {
            step - me.move_progress as i64
        } else {
            0
        };
        let enemies = enemies_of(state, me.id);
        let now_tick: u32 = match at_tick {
            Some(t) => t,
            None => 0,
        };
        let world = Sight::new(state, rules, me.id, None, now_tick);
        let ghost s = world@;
        let cur: Cell = (me.x as i32, me.y as i32);

        match at_tick {
            Some(at) => {
                let mut kept: Vec<(Cell, u32)> = Vec::new();
                let mut i: usize = 0;
                while i < self.memo.banned.len()
                    invariant
                        i <= self.memo.banned@.len(),
                        kept@ == keep_banned(self.memo.banned@.take(i as int), at),
                    decreases self.memo.banned.len() - i,
                {
                    proof {
                        assert(self.memo.banned@.take(i as int + 1).drop_last() =~= self.memo.banned@.take(i as int));
                    }
                    if self.memo.banned[i].1 > at {
                        kept.push(self.memo.banned[i]);
                    }
                    proof {
                        assert(kept@ =~= keep_banned(self.memo.banned@.take(i as int + 1), at));
                    }
                    i = i + 1;
                }
                proof {
                    assert(self.memo.banned@.take(self.memo.banned@.len() as int) =~= self.memo.banned@);
                }
                self.memo.banned = kept;
            },
            None => {},
        }

        // 1) Survive: if this cell is no haven, head for the nearest one.
        if !world.haven(cur, t_free) {
            let (path, found) = escape_path(&world, cur, t_free, step);
            let action = first_action(cur, &path);
            return Decision { action, path, start: cur, step, t_free };
        }

        // 2) Attack: bomb and step away (only while standing).
        if t_free == 0 {
            match self.plan_attack(state, rules, me, &enemies, step, now_tick) {
                Some((action, path)) => {
                    proof {
                        if without_bomb_spec(action) is Some {
                            let d = choose|d: int|
                                best_attack(
                                    sight_spec(state@, *rules, me.id, Some((cur, me.flame)), now_tick),
                                    cur,
                                    step as int,
                                    d,
                                ) && action == step_bomb_action_spec(dir_spec(d)) && path@.len() == 1
                                    + attack_len(sight_spec(state@, *rules, me.id, Some((cur, me.flame)), now_tick), cur, d, step as int)
                                    && path@[0] == neighbour(cur, d) && walk_from(
                                    sight_spec(state@, *rules, me.id, Some((cur, me.flame)), now_tick),
                                    Moves::Walk,
                                    neighbour(cur, d),
                                    0,
                                    step as int,
                                    path@.drop_first(),
                                );
                            assert(0 <= d < 4);
                        }
                    }
                    return Decision { action, path, start: cur, step, t_free };
                },
                None => {},
            }
            let on_target = match self.memo.target {
                Some(tc) => tc.0 == cur.0 && tc.1 == cur.1,
                None => false,
            };
            if on_target {
                match at_tick {
                    Some(at) => {
                        if self.bomb_unavailable(state, me, now_tick) && Self::bomb_worth_here(state, me, &enemies)
                            && !cell_in(&world.threat, cur) {
                            // Good spot, just no bomb free: stay until ours has
                            // gone off instead of wandering between spots.
                            return Decision { action: Action::Idle, path: Vec::new(), start: cur, step, t_free };
                        }
                        // On a chosen bomb spot but no safe bomb here: ban it for
                        // a while, or the bot would be stuck on it.
                        let until: u32 = at + rules.bomb_fuse_ticks as u32;
                        assert(until == (at + rules.bomb_fuse_ticks) as u32);
                        ban(&mut self.memo.banned, cur, until);
                        self.memo.target = None;
                    },
                    None => {},
                }
            }
        } else {
            let on_target = match self.memo.target {
                Some(tc) => tc.0 == cur.0 && tc.1 == cur.1,
                None => false,
            };
            if on_target {
                // Mid-step towards the target (x/y already is the target):
                // finish the step instead of replanning away from it.
                return Decision { action: Action::Idle, path: Vec::new(), start: cur, step, t_free };
            }
        }

        // 3) Head for a target.
        let mut path = self.plan_target(&world, me, step, t_free, &enemies);
        if path.len() == 0 && world.sd_prep && world.time_to_close(cur) < SD_DEEP_TICKS {
            // No target and this cell closes soon: move inward in time.
            let (deep, found) = search(&world, cur, t_free, step, Goal::DeepHaven);
            path = if found {
                deep
            } else {
                latest_closing_path(&world, cur, t_free, step)
            };
        }
        if path.len() == 0 && cell_in(&world.threat, cur) {
            // No target, but standing in an enemy's line: step out of it.
            let (quiet, found) = search(&world, cur, t_free, step, Goal::QuietHaven);
            path = if found { quiet } else { Vec::new() };
        }
        let action = first_action(cur, &path);
        Decision { action, path, start: cur, step, t_free }
    }
}


/// The action the bot picks, from its memory before the call: nothing
/// without a living player of ours; the old plan by wall clock while the
/// state stands still; a bomb command once more when the first one was
/// lost; else a fresh decision, from an empty memory in a new match.
pub open spec fn decide_spec(m0: Memo, w: WorldView, rules: Rules, my_id: u8, at_tick: Option<u32>, match_id: Option<u32>, now: u64) -> Action {
    let i = player_index(w.players, my_id);
    if i < 0 || !w.players[i].alive {
        Action::Idle
    } else {
        let me = w.players[i];
        let fresh_match = new_match(m0, match_id, at_tick);
        if !fresh_match && at_tick is Some && at_tick == m0.tick {
            replay_spec(m0, now)
        } else if !fresh_match && bomb_lost(m0, w, me, at_tick) {
            m0.bomb_action.unwrap().action
        } else if fresh_match {
            fresh_spec(None, Seq::empty(), None, None, w, rules, me, at_tick).0
        } else {
            fresh_spec(m0.target, m0.banned@, m0.bomb_sent_tick, m0.last_move_tick, w, rules, me, at_tick).0
        }
    }
}

/// What a decision leaves in the memory `m`, from the memory `m0` before
/// it, for the action `a` it picked.
pub open spec fn decided(m0: Memo, w: WorldView, rules: Rules, my_id: u8, at_tick: Option<u32>, match_id: Option<u32>, now: u64, a: Action, m: Memo) -> bool {
    let i = player_index(w.players, my_id);
    let fresh_match = new_match(m0, match_id, at_tick);
    let frozen = !fresh_match && at_tick is Some && at_tick == m0.tick;
    &&& (i < 0 || !w.players[i].alive) ==> a == Action::Idle && m == m0
    &&& (i >= 0 && w.players[i].alive && frozen) ==> {
        &&& a == replay_spec(m0, now)
        &&& without_bomb_spec(a) is None
        &&& m == if is_step_spec(a) {
            Memo { last_move_tick: at_tick, ..m0 }
        } else {
            m0
        }
    }
    &&& (i >= 0 && w.players[i].alive && !frozen) ==> {
        let me = w.players[i];
        let cur = (me.x as i32, me.y as i32);
        let resend = !fresh_match && bomb_lost(m0, w, me, at_tick);
        let sent = if fresh_match {
            None
        } else {
            m0.bomb_sent_tick
        };
        let bombs = without_bomb_spec(a) is Some && at_tick is Some;
        &&& m.tick == at_tick
        &&& m.plan_t0 == now
        &&& m.plan_start == Some(cur)
        &&& m.match_id == match_id
        &&& resend ==> {
            &&& m0.bomb_action matches Some(saved)
            &&& a == saved.action
            &&& m.plan@ == saved.path@
            &&& m.plan_step == saved.step
            &&& m.plan_delay == saved.t_free
            &&& m.bomb_action is None
            &&& m.target == m0.target
            &&& m.banned == m0.banned
        }
        &&& !resend ==> fresh_ok(sent, w, rules, me, at_tick, a, m.plan@)
        &&& !resend ==> (a, m.plan@, m.target, m.banned@) == if fresh_match {
            fresh_spec(None, Seq::empty(), None, None, w, rules, me, at_tick)
        } else {
            fresh_spec(m0.target, m0.banned@, m0.bomb_sent_tick, m0.last_move_tick, w, rules, me, at_tick)
        }
        &&& !resend ==> m.plan_step == step_of(rules, me) && m.plan_delay == t_free_of(rules, me)
        &&& !resend && bombs ==> (m.bomb_action matches Some(saved) && saved.action == a
            && saved.path@ == m.plan@ && saved.cell == cur && saved.step == m.plan_step
            && saved.t_free == m.plan_delay)
        &&& !resend && !bombs ==> m.bomb_action == if fresh_match {
            None
        } else {
            m0.bomb_action
        }
        &&& m.bomb_sent_tick == if bombs {
            at_tick
        } else {
            sent
        }
        &&& m.last_move_tick == if is_step_spec(a) && at_tick is Some {
            at_tick
        } else if fresh_match {
            None
        } else {
            m0.last_move_tick
        }
    }
}

impl Bot {
    /// The next action for our own player.
    #[verifier::spinoff_prover]
    #[verifier::rlimit(100)]
    pub fn decide(&mut self, s: &Situation) -> (a: Action)
        requires
            world_wf(s.world@),
            memo_wf(old(self).memo),
            s.at_tick matches Some(at) ==> at + s.rules.bomb_fuse_ticks <= u32::MAX,
        ensures
            memo_wf(final(self).memo),
            bot_action(a),
            a == decide_spec(old(self).memo, s.world@, s.rules, s.my_id, s.at_tick, s.match_id, s.now),
            decided(old(self).memo, s.world@, s.rules, s.my_id, s.at_tick, s.match_id, s.now, a, final(self).memo),
    {
        let me = match s.world.player(s.my_id) {
            Some(p) => p,
            None => return Action::Idle,
        };
        if !me.alive {
            return Action::Idle;
        }
        let ghost m0 = self.memo;
        self.forget_previous_match(s.match_id, s.at_tick);
        proof {
            if new_match(m0, s.match_id, s.at_tick) {
                assert(self.memo.banned@ =~= Seq::<(Cell, u32)>::empty());
            }
        }
        let frozen = match (s.at_tick, self.memo.tick) {
            (Some(a), Some(b)) => a == b,
            _ => false,
        };
        if frozen {
            // Frozen state (a lost delta): keep following the plan.
            let action = self.replay(s.now);
            if is_step(action) {
                self.memo.last_move_tick = s.at_tick;
            }
            return action;
        }
        let resend = self.lost_bomb_action(s.world, &me, s.at_tick);
        let was_resend = resend.is_some();
        let d = match resend {
            Some(d) => d,
            None => self.decide_fresh(s.world, &s.rules, &me, s.at_tick),
        };
        self.memo.tick = s.at_tick;
        self.memo.plan = copy_cells(&d.path);
        self.memo.plan_start = Some(d.start);
        self.memo.plan_t0 = s.now;
        self.memo.plan_step = d.step;
        self.memo.plan_delay = d.t_free;
        if without_bomb(d.action).is_some() {
            match s.at_tick {
                Some(tick) => {
                    self.memo.bomb_sent_tick = Some(tick);
                    if !was_resend {
                        // Only the first command may be repeated, once.
                        self.memo.bomb_action = Some(
                            SavedBomb {
                                action: d.action,
                                path: copy_cells(&d.path),
                                cell: (me.x as i32, me.y as i32),
                                step: d.step,
                                t_free: d.t_free,
                            },
                        );
                    }
                },
                None => {},
            }
        }
        if is_step(d.action) && s.at_tick.is_some() {
            self.memo.last_move_tick = s.at_tick;
        }
        d.action
    }
}

} // verus!
