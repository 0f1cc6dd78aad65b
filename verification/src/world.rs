//! The client's picture of a running match, rebuilt from server frames.
//!
//! A keyframe replaces everything; a delta edits it. Nothing here predicts
//! or simulates -- the server is the only authority on what happened. The one
//! thing added on top is a list of [`FxEvent`]s: moments worth an effect (an
//! explosion, a crate breaking, a pickup) that the state alone would only
//! show as "before" and "after".
//!
//! Players, bombs, flames and power-ups are kept as lists with one entry per
//! key (player id, bomb id, cell, power-up id).

use vstd::prelude::*;

use crate::domain::{Direction, PowerupKind, Tile};

verus! {

/// Sudden death seals one cell every this many ticks.
pub const SUDDEN_DEATH_TICKS_PER_CELL: u32 = 6;

#[derive(Debug, Clone, Copy, PartialEq, Eq, Structural)]
pub struct PlayerView {
    pub id: u8,
    pub alive: bool,
    pub moving: bool,
    /// Destination cell while moving: a step commits the moment it starts.
    pub x: u8,
    pub y: u8,
    pub dir: Direction,
    pub move_progress: u8,
    pub bombs_max: u8,
    pub flame: u8,
    pub speed: u8,
    pub score: u16,
}

#[derive(Debug, Clone, Copy, PartialEq, Eq, Structural)]
pub struct BombView {
    pub id: u16,
    pub owner: u8,
    pub x: u8,
    pub y: u8,
    /// Fuse as of `seen_tick`. Deltas do not count it down, so readers age it.
    pub fuse: u16,
    pub seen_tick: u32,
}

#[derive(Debug, Clone, Copy, PartialEq, Eq, Structural)]
pub struct FlameView {
    pub x: u8,
    pub y: u8,
    /// Remaining burn as of `seen_tick`.
    pub ticks: u8,
    pub seen_tick: u32,
}

#[derive(Debug, Clone, Copy, PartialEq, Eq, Structural)]
pub struct PowerupView {
    pub id: u16,
    pub x: u8,
    pub y: u8,
    pub kind: PowerupKind,
}

/// Something that happened this tick and deserves more than a state change.
#[derive(Debug, Clone, Copy, PartialEq, Eq, Structural)]
pub enum FxEvent {
    /// Arm lengths up, down, left, right.
    Explosion { x: u8, y: u8, up: u8, down: u8, left: u8, right: u8 },
    CrateBroken { x: u8, y: u8 },
    BombPlaced { x: u8, y: u8 },
    PowerupTaken { player: u8, x: u8, y: u8, kind: PowerupKind },
    PowerupBurned { x: u8, y: u8 },
    PlayerDied { player: u8, x: u8, y: u8 },
    WallClosed { x: u8, y: u8 },
}

/// One edit in a delta frame.
#[derive(Debug, Clone, Copy, PartialEq, Eq, Structural)]
pub enum DeltaRecord {
    PlayerState {
        id: u8,
        alive: bool,
        moving: bool,
        x: u8,
        y: u8,
        dir: Direction,
        move_progress: u8,
    },
    PlayerStats { id: u8, bombs_max: u8, flame: u8, speed: u8, score: u16 },
    BombAdd { id: u16, owner: u8, x: u8, y: u8, fuse: u16 },
    BombRemove { id: u16 },
    Explosion { x: u8, y: u8, up: u8, down: u8, left: u8, right: u8 },
    TileSet { x: u8, y: u8, tile: Tile },
    PowerupAdd { id: u16, x: u8, y: u8, kind: PowerupKind },
    PowerupRemove { id: u16, taken_by: Option<u8> },
    PlayerDeath { id: u8, killer: Option<u8> },
    FlameAdd { x: u8, y: u8, ticks: u8 },
    FlameRemove { x: u8, y: u8 },
    Timer { ticks_remaining: u32 },
    WallClosed { x: u8, y: u8 },
}

/// A bomb as a keyframe lists it.
#[derive(Debug, Clone, Copy, PartialEq, Eq, Structural)]
pub struct BombSnapshot {
    pub id: u16,
    pub owner: u8,
    pub x: u8,
    pub y: u8,
    pub fuse_remaining: u16,
}

/// A burning cell as a keyframe lists it.
#[derive(Debug, Clone, Copy, PartialEq, Eq, Structural)]
pub struct FlameSnapshot {
    pub x: u8,
    pub y: u8,
    pub ticks_remaining: u8,
}

/// The complete state of a match at one tick.
#[derive(Debug, Clone, PartialEq, Eq)]
pub struct Keyframe {
    pub tick: u32,
    pub width: u8,
    pub height: u8,
    /// Row by row, `width * height` of them.
    pub cells: Vec<Tile>,
    pub players: Vec<PlayerView>,
    pub bombs: Vec<BombSnapshot>,
    pub flames: Vec<FlameSnapshot>,
    pub powerups: Vec<PowerupView>,
    pub ticks_remaining: u32,
}

#[derive(Debug, Clone, PartialEq, Eq)]
pub struct World {
    pub width: u8,
    pub height: u8,
    pub tiles: Vec<Tile>,
    pub players: Vec<PlayerView>,
    pub bombs: Vec<BombView>,
    pub flames: Vec<FlameView>,
    pub powerups: Vec<PowerupView>,
    pub ticks_remaining: u32,
    /// The server tick this state represents; resets to 0 each match.
    pub tick: u32,
}

/// The world as plain values.
#[verifier::ext_equal]
pub struct WorldView {
    pub width: u8,
    pub height: u8,
    pub tiles: Seq<Tile>,
    pub players: Seq<PlayerView>,
    pub bombs: Seq<BombView>,
    pub flames: Seq<FlameView>,
    pub powerups: Seq<PowerupView>,
    pub ticks_remaining: u32,
    pub tick: u32,
}

impl View for World {
    type V = WorldView;

    open spec fn view(&self) -> WorldView {
        WorldView {
            width: self.width,
            height: self.height,
            tiles: self.tiles@,
            players: self.players@,
            bombs: self.bombs@,
            flames: self.flames@,
            powerups: self.powerups@,
            ticks_remaining: self.ticks_remaining,
            tick: self.tick,
        }
    }
}

// -- keyed lists -----------------------------------------------------------------

pub open spec fn player_index(ps: Seq<PlayerView>, id: u8) -> int {
    if exists|i: int| 0 <= i < ps.len() && ps[i].id == id {
        choose|i: int| 0 <= i < ps.len() && ps[i].id == id
    } else {
        -1
    }
}

pub open spec fn bomb_index(bs: Seq<BombView>, id: u16) -> int {
    if exists|i: int| 0 <= i < bs.len() && bs[i].id == id {
        choose|i: int| 0 <= i < bs.len() && bs[i].id == id
    } else {
        -1
    }
}

pub open spec fn flame_index(fs: Seq<FlameView>, x: u8, y: u8) -> int {
    if exists|i: int| 0 <= i < fs.len() && fs[i].x == x && fs[i].y == y {
        choose|i: int| 0 <= i < fs.len() && fs[i].x == x && fs[i].y == y
    } else {
        -1
    }
}

pub open spec fn powerup_index(ps: Seq<PowerupView>, id: u16) -> int {
    if exists|i: int| 0 <= i < ps.len() && ps[i].id == id {
        choose|i: int| 0 <= i < ps.len() && ps[i].id == id
    } else {
        -1
    }
}

/// `p` stored under its id: replacing the entry with that id, or added.
pub open spec fn put_player(ps: Seq<PlayerView>, p: PlayerView) -> Seq<PlayerView> {
    let i = player_index(ps, p.id);
    if i >= 0 {
        ps.update(i, p)
    } else {
        ps.push(p)
    }
}

pub open spec fn put_bomb(bs: Seq<BombView>, b: BombView) -> Seq<BombView> {
    let i = bomb_index(bs, b.id);
    if i >= 0 {
        bs.update(i, b)
    } else {
        bs.push(b)
    }
}

pub open spec fn put_flame(fs: Seq<FlameView>, f: FlameView) -> Seq<FlameView> {
    let i = flame_index(fs, f.x, f.y);
    if i >= 0 {
        fs.update(i, f)
    } else {
        fs.push(f)
    }
}

pub open spec fn put_powerup(ps: Seq<PowerupView>, p: PowerupView) -> Seq<PowerupView> {
    let i = powerup_index(ps, p.id);
    if i >= 0 {
        ps.update(i, p)
    } else {
        ps.push(p)
    }
}

/// The entry under `id` taken out, if there is one.
pub open spec fn drop_bomb(bs: Seq<BombView>, id: u16) -> Seq<BombView> {
    let i = bomb_index(bs, id);
    if i >= 0 {
        bs.remove(i)
    } else {
        bs
    }
}

pub open spec fn drop_flame(fs: Seq<FlameView>, x: u8, y: u8) -> Seq<FlameView> {
    let i = flame_index(fs, x, y);
    if i >= 0 {
        fs.remove(i)
    } else {
        fs
    }
}

pub open spec fn drop_powerup(ps: Seq<PowerupView>, id: u16) -> Seq<PowerupView> {
    let i = powerup_index(ps, id);
    if i >= 0 {
        ps.remove(i)
    } else {
        ps
    }
}

pub open spec fn unique_players(ps: Seq<PlayerView>) -> bool {
    forall|i: int, j: int| 0 <= i < j < ps.len() ==> ps[i].id != ps[j].id
}

pub open spec fn unique_bombs(bs: Seq<BombView>) -> bool {
    forall|i: int, j: int| 0 <= i < j < bs.len() ==> bs[i].id != bs[j].id
}

pub open spec fn unique_flames(fs: Seq<FlameView>) -> bool {
    forall|i: int, j: int| 0 <= i < j < fs.len() ==> !(fs[i].x == fs[j].x && fs[i].y == fs[j].y)
}

pub open spec fn unique_powerups(ps: Seq<PowerupView>) -> bool {
    forall|i: int, j: int| 0 <= i < j < ps.len() ==> ps[i].id != ps[j].id
}

/// A well-formed world: a full grid, and one entry per key in every list.
pub open spec fn world_wf(w: WorldView) -> bool {
    &&& w.tiles.len() == w.width as int * w.height as int
    &&& unique_players(w.players)
    &&& unique_bombs(w.bombs)
    &&& unique_flames(w.flames)
    &&& unique_powerups(w.powerups)
}

// -- reading the grid ------------------------------------------------------------

/// Out of bounds reads as a wall, which is what every caller wants.
pub open spec fn tile_at(w: WorldView, x: int, y: int) -> Tile {
    if x < 0 || y < 0 || x >= w.width || y >= w.height {
        Tile::Solid
    } else {
        w.tiles[y * w.width + x]
    }
}

pub open spec fn set_tile_spec(w: WorldView, x: u8, y: u8, t: Tile) -> WorldView {
    if x < w.width && y < w.height {
        WorldView { tiles: w.tiles.update(y as int * w.width + x as int, t), ..w }
    } else {
        w
    }
}

pub open spec fn has_bomb_at(w: WorldView, x: int, y: int) -> bool {
    exists|i: int| 0 <= i < w.bombs.len() && w.bombs[i].x == x && w.bombs[i].y == y
}

// -- applying a delta ------------------------------------------------------------

/// One record applied: the new world and the effects it is worth.
pub open spec fn apply_one(w: WorldView, tick: u32, r: DeltaRecord) -> (WorldView, Seq<FxEvent>) {
    match r {
        DeltaRecord::PlayerState { id, alive, moving, x, y, dir, move_progress } => {
            let i = player_index(w.players, id);
            let base = if i >= 0 {
                w.players[i]
            } else {
                PlayerView {
                    id,
                    alive,
                    moving,
                    x,
                    y,
                    dir,
                    move_progress,
                    bombs_max: 1,
                    flame: 1,
                    speed: 0,
                    score: 0,
                }
            };
            let p = PlayerView { alive, moving, x, y, dir, move_progress, ..base };
            (WorldView { players: put_player(w.players, p), ..w }, Seq::empty())
        },
        DeltaRecord::PlayerStats { id, bombs_max, flame, speed, score } => {
            let i = player_index(w.players, id);
            if i >= 0 {
                let p = PlayerView { bombs_max, flame, speed, score, ..w.players[i] };
                (WorldView { players: w.players.update(i, p), ..w }, Seq::empty())
            } else {
                (w, Seq::empty())
            }
        },
        DeltaRecord::BombAdd { id, owner, x, y, fuse } => {
            let b = BombView { id, owner, x, y, fuse, seen_tick: tick };
            (WorldView { bombs: put_bomb(w.bombs, b), ..w }, seq![FxEvent::BombPlaced { x, y }])
        },
        DeltaRecord::BombRemove { id } => (
            WorldView { bombs: drop_bomb(w.bombs, id), ..w },
            Seq::empty(),
        ),
        DeltaRecord::Explosion { x, y, up, down, left, right } => (
            w,
            seq![FxEvent::Explosion { x, y, up, down, left, right }],
        ),
        DeltaRecord::TileSet { x, y, tile } => {
            let fx = if tile == Tile::Empty && tile_at(w, x as int, y as int) == Tile::Soft {
                seq![FxEvent::CrateBroken { x, y }]
            } else {
                Seq::empty()
            };
            (set_tile_spec(w, x, y, tile), fx)
        },
        DeltaRecord::PowerupAdd { id, x, y, kind } => (
            WorldView { powerups: put_powerup(w.powerups, PowerupView { id, x, y, kind }), ..w },
            Seq::empty(),
        ),
        DeltaRecord::PowerupRemove { id, taken_by } => {
            let i = powerup_index(w.powerups, id);
            if i >= 0 {
                let p = w.powerups[i];
                let fx = match taken_by {
                    Some(player) => FxEvent::PowerupTaken { player, x: p.x, y: p.y, kind: p.kind },
                    None => FxEvent::PowerupBurned { x: p.x, y: p.y },
                };
                (
                    WorldView { powerups: drop_powerup(w.powerups, id), ..w },
                    seq![fx],
                )
            } else {
                (w, Seq::empty())
            }
        },
        DeltaRecord::PlayerDeath { id, killer } => {
            let i = player_index(w.players, id);
            if i >= 0 {
                let p = w.players[i];
                (
                    WorldView { players: w.players.update(i, PlayerView { alive: false, ..p }), ..w },
                    seq![FxEvent::PlayerDied { player: id, x: p.x, y: p.y }],
                )
            } else {
                (w, Seq::empty())
            }
        },
        DeltaRecord::FlameAdd { x, y, ticks } => (
            WorldView { flames: put_flame(w.flames, FlameView { x, y, ticks, seen_tick: tick }), ..w },
            Seq::empty(),
        ),
        DeltaRecord::FlameRemove { x, y } => (
            WorldView { flames: drop_flame(w.flames, x, y), ..w },
            Seq::empty(),
        ),
        DeltaRecord::Timer { ticks_remaining } => (
            WorldView { ticks_remaining, ..w },
            Seq::empty(),
        ),
        DeltaRecord::WallClosed { x, y } => (
            set_tile_spec(w, x, y, Tile::Solid),
            seq![FxEvent::WallClosed { x, y }],
        ),
    }
}

/// The records applied in order, with the effects they produce in order.
pub open spec fn apply_all(w: WorldView, tick: u32, rs: Seq<DeltaRecord>) -> (
    WorldView,
    Seq<FxEvent>,
)
    decreases rs.len(),
{
    if rs.len() == 0 {
        (w, Seq::empty())
    } else {
        let (w1, fx1) = apply_all(w, tick, rs.drop_last());
        let (w2, fx2) = apply_one(w1, tick, rs.last());
        (w2, fx1 + fx2)
    }
}

/// A whole delta: every record, then the world stands at `tick`.
pub open spec fn apply_delta(w: WorldView, tick: u32, rs: Seq<DeltaRecord>) -> (
    WorldView,
    Seq<FxEvent>,
) {
    let (w1, fx) = apply_all(w, tick, rs);
    (WorldView { tick, ..w1 }, fx)
}

// -- a keyframe --------------------------------------------------------------------

/// The players of a keyframe, stored one by one: a later entry with the same id
/// replaces an earlier one.
pub open spec fn players_from(ps: Seq<PlayerView>) -> Seq<PlayerView>
    decreases ps.len(),
{
    if ps.len() == 0 {
        Seq::empty()
    } else {
        put_player(players_from(ps.drop_last()), ps.last())
    }
}

pub open spec fn bomb_seen(b: BombSnapshot, tick: u32) -> BombView {
    BombView { id: b.id, owner: b.owner, x: b.x, y: b.y, fuse: b.fuse_remaining, seen_tick: tick }
}

pub open spec fn bombs_from(bs: Seq<BombSnapshot>, tick: u32) -> Seq<BombView>
    decreases bs.len(),
{
    if bs.len() == 0 {
        Seq::empty()
    } else {
        put_bomb(bombs_from(bs.drop_last(), tick), bomb_seen(bs.last(), tick))
    }
}

pub open spec fn flame_seen(f: FlameSnapshot, tick: u32) -> FlameView {
    FlameView { x: f.x, y: f.y, ticks: f.ticks_remaining, seen_tick: tick }
}

pub open spec fn flames_from(fs: Seq<FlameSnapshot>, tick: u32) -> Seq<FlameView>
    decreases fs.len(),
{
    if fs.len() == 0 {
        Seq::empty()
    } else {
        put_flame(flames_from(fs.drop_last(), tick), flame_seen(fs.last(), tick))
    }
}

pub open spec fn powerups_from(ps: Seq<PowerupView>) -> Seq<PowerupView>
    decreases ps.len(),
{
    if ps.len() == 0 {
        Seq::empty()
    } else {
        put_powerup(powerups_from(ps.drop_last()), ps.last())
    }
}

/// The world a keyframe describes.
pub open spec fn keyframe_world(k: Keyframe) -> WorldView {
    WorldView {
        width: k.width,
        height: k.height,
        tiles: k.cells@,
        players: players_from(k.players@),
        bombs: bombs_from(k.bombs@, k.tick),
        flames: flames_from(k.flames@, k.tick),
        powerups: powerups_from(k.powerups@),
        ticks_remaining: k.ticks_remaining,
        tick: k.tick,
    }
}

// -- sudden death ------------------------------------------------------------------

/// The ring of the rectangle `x0..=x1` by `y0..=y1`, clockwise from its
/// top-left cell: the top row rightwards, the right column down, the bottom
/// row leftwards, the left column up. A one-row or one-column rectangle is
/// walked once, rightwards or downwards.
pub open spec fn ring(x0: int, y0: int, x1: int, y1: int) -> Seq<(i32, i32)> {
    if y0 == y1 {
        Seq::new((x1 - x0 + 1) as nat, |i: int| ((x0 + i) as i32, y0 as i32))
    } else if x0 == x1 {
        Seq::new((y1 - y0 + 1) as nat, |i: int| (x0 as i32, (y0 + i) as i32))
    } else {
        Seq::new((x1 - x0 + 1) as nat, |i: int| ((x0 + i) as i32, y0 as i32)) + Seq::new(
            (y1 - y0) as nat,
            |i: int| (x1 as i32, (y0 + 1 + i) as i32),
        ) + Seq::new((x1 - x0) as nat, |i: int| ((x1 - 1 - i) as i32, y1 as i32)) + Seq::new(
            (y1 - y0 - 1) as nat,
            |i: int| (x0 as i32, (y1 - 1 - i) as i32),
        )
    }
}

pub open spec fn ring_count(x0: int, x1: int) -> int {
    if x1 >= x0 {
        x1 - x0 + 1
    } else {
        0
    }
}

/// Ring after ring, from the outside in.
pub open spec fn spiral(x0: int, y0: int, x1: int, y1: int) -> Seq<(i32, i32)>
    decreases ring_count(x0, x1),
{
    if x0 > x1 || y0 > y1 {
        Seq::empty()
    } else {
        ring(x0, y0, x1, y1) + spiral(x0 + 1, y0 + 1, x1 - 1, y1 - 1)
    }
}

/// The interior of a `width` by `height` board in the order sudden death walls
/// it in.
pub open spec fn closing_order_spec(width: u8, height: u8) -> Seq<(i32, i32)> {
    spiral(1, 1, width - 2, height - 2)
}

/// Cells in the rectangle `x0..=x1` by `y0..=y1`.
pub open spec fn rect_size(x0: int, y0: int, x1: int, y1: int) -> int {
    if x0 > x1 || y0 > y1 {
        0
    } else {
        (x1 - x0 + 1) * (y1 - y0 + 1)
    }
}

proof fn lemma_spiral_len(x0: int, y0: int, x1: int, y1: int)
    ensures
        spiral(x0, y0, x1, y1).len() == rect_size(x0, y0, x1, y1),
    decreases ring_count(x0, x1),
{
    if x0 <= x1 && y0 <= y1 {
        lemma_spiral_len(x0 + 1, y0 + 1, x1 - 1, y1 - 1);
        let w = x1 - x0 + 1;
        let h = y1 - y0 + 1;
        let r = ring(x0, y0, x1, y1).len();
        let inner = rect_size(x0 + 1, y0 + 1, x1 - 1, y1 - 1);
        if w >= 3 && h >= 3 {
            assert(inner == (w - 2) * (h - 2));
            assert(r == 2 * w + 2 * h - 4);
            assert((w - 2) * (h - 2) + 2 * w + 2 * h - 4 == w * h) by (nonlinear_arith);
        } else if w == 1 {
            assert(w * h == h) by (nonlinear_arith)
                requires
                    w == 1,
            ;
        } else if h == 1 {
            assert(w * h == w) by (nonlinear_arith)
                requires
                    h == 1,
            ;
        } else if w == 2 {
            assert(w * h == 2 * h) by (nonlinear_arith)
                requires
                    w == 2,
            ;
        } else {
            assert(w * h == 2 * w) by (nonlinear_arith)
                requires
                    h == 2,
            ;
        }
    }
}

/// The closing order lists as many cells as the interior holds.
pub proof fn lemma_closing_order_len(width: u8, height: u8)
    ensures
        closing_order_spec(width, height).len() == rect_size(1, 1, width - 2, height - 2),
        closing_order_spec(width, height).len() <= 65536,
{
    lemma_spiral_len(1, 1, width - 2, height - 2);
    if width >= 3 && height >= 3 {
        let w = width - 2;
        let h = height - 2;
        assert(w * h <= 65536) by (nonlinear_arith)
            requires
                1 <= w <= 253,
                1 <= h <= 253,
        ;
    }
}

/// `c` lies in the rectangle `x0..=x1` by `y0..=y1`.
pub open spec fn in_rect(c: (i32, i32), x0: int, y0: int, x1: int, y1: int) -> bool {
    x0 <= c.0 && c.0 <= x1 && y0 <= c.1 && c.1 <= y1
}

/// `c` lies on the outer ring of the rectangle.
pub open spec fn on_border(c: (i32, i32), x0: int, y0: int, x1: int, y1: int) -> bool {
    c.0 == x0 || c.0 == x1 || c.1 == y0 || c.1 == y1
}

pub open spec fn no_repeats(s: Seq<(i32, i32)>) -> bool {
    forall|i: int, j: int| 0 <= i < j < s.len() ==> s[i] != s[j]
}

proof fn lemma_ring_cells(x0: int, y0: int, x1: int, y1: int)
    requires
        0 <= x0 <= x1 <= 300,
        0 <= y0 <= y1 <= 300,
    ensures
        forall|i: int|
            0 <= i < ring(x0, y0, x1, y1).len() ==> in_rect(#[trigger] ring(x0, y0, x1, y1)[i], x0, y0, x1, y1)
                && on_border(ring(x0, y0, x1, y1)[i], x0, y0, x1, y1),
        no_repeats(ring(x0, y0, x1, y1)),
        forall|x: int, y: int|
            x0 <= x <= x1 && y0 <= y <= y1 && (x == x0 || x == x1 || y == y0 || y == y1) ==> #[trigger] ring(
                x0,
                y0,
                x1,
                y1,
            ).contains((x as i32, y as i32)),
{
    let r = ring(x0, y0, x1, y1);
    if y0 == y1 {
        assert forall|x: int, y: int|
            x0 <= x <= x1 && y0 <= y <= y1 && (x == x0 || x == x1 || y == y0 || y == y1) implies #[trigger] r.contains(
            (x as i32, y as i32),
        ) by {
            assert(r[x - x0] == (x as i32, y as i32));
        }
    } else if x0 == x1 {
        assert forall|x: int, y: int|
            x0 <= x <= x1 && y0 <= y <= y1 && (x == x0 || x == x1 || y == y0 || y == y1) implies #[trigger] r.contains(
            (x as i32, y as i32),
        ) by {
            assert(r[y - y0] == (x as i32, y as i32));
        }
    } else {
        let top = Seq::new((x1 - x0 + 1) as nat, |i: int| ((x0 + i) as i32, y0 as i32));
        let right = Seq::new((y1 - y0) as nat, |i: int| (x1 as i32, (y0 + 1 + i) as i32));
        let bottom = Seq::new((x1 - x0) as nat, |i: int| ((x1 - 1 - i) as i32, y1 as i32));
        let left = Seq::new((y1 - y0 - 1) as nat, |i: int| (x0 as i32, (y1 - 1 - i) as i32));
        let a = top.len() as int;
        let b = a + right.len();
        let c = b + bottom.len();
        assert(r == top + right + bottom + left);
        assert forall|i: int| 0 <= i < r.len() implies (if i < a {
            r[i] == top[i]
        } else if i < b {
            r[i] == right[i - a]
        } else if i < c {
            r[i] == bottom[i - b]
        } else {
            r[i] == left[i - c]
        }) by {}
        assert forall|i: int|
            0 <= i < r.len() implies in_rect(#[trigger] r[i], x0, y0, x1, y1) && on_border(
            r[i],
            x0,
            y0,
            x1,
            y1,
        ) by {
            if i < a {
                assert(r[i] == top[i]);
            } else if i < b {
                assert(r[i] == right[i - a]);
            } else if i < c {
                assert(r[i] == bottom[i - b]);
            } else {
                assert(r[i] == left[i - c]);
            }
        }
        assert forall|i: int, j: int| 0 <= i < j < r.len() implies r[i] != r[j] by {
            if i < a {
                assert(r[i] == top[i]);
            } else if i < b {
                assert(r[i] == right[i - a]);
            } else if i < c {
                assert(r[i] == bottom[i - b]);
            } else {
                assert(r[i] == left[i - c]);
            }
            if j < a {
                assert(r[j] == top[j]);
            } else if j < b {
                assert(r[j] == right[j - a]);
            } else if j < c {
                assert(r[j] == bottom[j - b]);
            } else {
                assert(r[j] == left[j - c]);
            }
        }
        assert forall|x: int, y: int|
            x0 <= x <= x1 && y0 <= y <= y1 && (x == x0 || x == x1 || y == y0 || y == y1) implies #[trigger] r.contains(
            (x as i32, y as i32),
        ) by {
            if y == y0 {
                assert(r[x - x0] == top[x - x0]);
                assert(r[x - x0] == (x as i32, y as i32));
            } else if x == x1 {
                assert(r[a + (y - y0 - 1)] == right[y - y0 - 1]);
                assert(r[a + (y - y0 - 1)] == (x as i32, y as i32));
            } else if y == y1 {
                assert(r[b + (x1 - 1 - x)] == bottom[x1 - 1 - x]);
                assert(r[b + (x1 - 1 - x)] == (x as i32, y as i32));
            } else {
                assert(r[c + (y1 - 1 - y)] == left[y1 - 1 - y]);
                assert(r[c + (y1 - 1 - y)] == (x as i32, y as i32));
            }
        }
    }
}

proof fn lemma_spiral_cells(x0: int, y0: int, x1: int, y1: int)
    requires
        0 <= x0,
        0 <= y0,
        x1 <= 300,
        y1 <= 300,
    ensures
        forall|i: int|
            0 <= i < spiral(x0, y0, x1, y1).len() ==> in_rect(
                #[trigger] spiral(x0, y0, x1, y1)[i],
                x0,
                y0,
                x1,
                y1,
            ),
        no_repeats(spiral(x0, y0, x1, y1)),
        forall|x: int, y: int|
            x0 <= x <= x1 && y0 <= y <= y1 ==> #[trigger] spiral(x0, y0, x1, y1).contains((x as i32, y as i32)),
    decreases ring_count(x0, x1),
{
    if x0 <= x1 && y0 <= y1 {
        lemma_ring_cells(x0, y0, x1, y1);
        lemma_spiral_cells(x0 + 1, y0 + 1, x1 - 1, y1 - 1);
        let r = ring(x0, y0, x1, y1);
        let inner = spiral(x0 + 1, y0 + 1, x1 - 1, y1 - 1);
        let s = spiral(x0, y0, x1, y1);
        assert(s == r + inner);
        assert forall|i: int| 0 <= i < s.len() implies in_rect(#[trigger] s[i], x0, y0, x1, y1) by {
            if i < r.len() {
                assert(s[i] == r[i]);
            } else {
                assert(s[i] == inner[i - r.len()]);
            }
        }
        assert forall|i: int, j: int| 0 <= i < j < s.len() implies s[i] != s[j] by {
            if j < r.len() {
                assert(s[i] == r[i] && s[j] == r[j]);
            } else if i >= r.len() {
                assert(s[i] == inner[i - r.len()] && s[j] == inner[j - r.len()]);
            } else {
                assert(s[i] == r[i] && s[j] == inner[j - r.len()]);
                assert(on_border(r[i], x0, y0, x1, y1));
                assert(in_rect(inner[j - r.len()], x0 + 1, y0 + 1, x1 - 1, y1 - 1));
            }
        }
        assert forall|x: int, y: int| x0 <= x <= x1 && y0 <= y <= y1 implies #[trigger] s.contains(
            (x as i32, y as i32),
        ) by {
            if x == x0 || x == x1 || y == y0 || y == y1 {
                assert(r.contains((x as i32, y as i32)));
                let k = choose|k: int| 0 <= k < r.len() && r[k] == (x as i32, y as i32);
                assert(s[k] == r[k]);
            } else {
                assert(inner.contains((x as i32, y as i32)));
                let k = choose|k: int| 0 <= k < inner.len() && inner[k] == (x as i32, y as i32);
                assert(s[r.len() + k] == inner[k]);
            }
        }
    }
}

/// Sudden death walls in every interior cell of the board exactly once:
/// the closing order lists interior cells only, none twice, and all of them.
pub proof fn lemma_closing_order_covers_interior(width: u8, height: u8)
    ensures
        ({
            let order = closing_order_spec(width, height);
            &&& forall|i: int|
                0 <= i < order.len() ==> 1 <= (#[trigger] order[i]).0 <= width - 2 && 1 <= order[i].1
                    <= height - 2
            &&& no_repeats(order)
            &&& forall|x: int, y: int|
                1 <= x <= width - 2 && 1 <= y <= height - 2 ==> #[trigger] order.contains((x as i32, y as i32))
        }),
{
    lemma_spiral_cells(1, 1, width - 2, height - 2);
}

/// Appends `(x, y0), (x + dx, y0 + dy), ...`, `n` cells.
fn push_line(out: &mut Vec<(i32, i32)>, x: i32, y: i32, dx: i32, dy: i32, n: i32)
    requires
        0 <= n <= 300,
        -1 <= dx <= 1,
        -1 <= dy <= 1,
        -300 <= x <= 300,
        -300 <= y <= 300,
    ensures
        final(out)@ == old(out)@ + Seq::new(
            n as nat,
            |i: int| ((x + dx * i) as i32, (y + dy * i) as i32),
        ),
{
    let ghost start = out@;
    let mut k: i32 = 0;
    while k < n
        invariant
            0 <= k <= n,
            n <= 300,
            -1 <= dx <= 1,
            -1 <= dy <= 1,
            -300 <= x <= 300,
            -300 <= y <= 300,
            out@ == start + Seq::new(k as nat, |i: int| ((x + dx * i) as i32, (y + dy * i) as i32)),
        decreases n - k,
    {
        assert(-300 <= dx * k <= 300 && -300 <= dy * k <= 300) by (nonlinear_arith)
            requires
                -1 <= dx <= 1,
                -1 <= dy <= 1,
                0 <= k <= 300,
        ;
        out.push((x + dx * k, y + dy * k));
        proof {
            assert(out@ =~= start + Seq::new(
                (k + 1) as nat,
                |i: int| ((x + dx * i) as i32, (y + dy * i) as i32),
            ));
        }
        k = k + 1;
    }
}

fn push_ring(out: &mut Vec<(i32, i32)>, x0: i32, y0: i32, x1: i32, y1: i32)
    requires
        0 <= x0 <= x1 <= 255,
        0 <= y0 <= y1 <= 255,
    ensures
        final(out)@ == old(out)@ + ring(x0 as int, y0 as int, x1 as int, y1 as int),
{
    let ghost start = out@;
    if y0 == y1 {
        push_line(out, x0, y0, 1, 0, x1 - x0 + 1);
        proof {
            assert(out@ =~= start + ring(x0 as int, y0 as int, x1 as int, y1 as int));
        }
    } else if x0 == x1 {
        push_line(out, x0, y0, 0, 1, y1 - y0 + 1);
        proof {
            assert(out@ =~= start + ring(x0 as int, y0 as int, x1 as int, y1 as int));
        }
    } else {
        push_line(out, x0, y0, 1, 0, x1 - x0 + 1);
        push_line(out, x1, y0 + 1, 0, 1, y1 - y0);
        push_line(out, x1 - 1, y1, -1, 0, x1 - x0);
        push_line(out, x0, y1 - 1, 0, -1, y1 - y0 - 1);
        proof {
            let a = Seq::new((x1 - x0 + 1) as nat, |i: int| ((x0 + 1 * i) as i32, (y0 + 0 * i) as i32));
            let b = Seq::new((y1 - y0) as nat, |i: int| ((x1 + 0 * i) as i32, (y0 + 1 + 1 * i) as i32));
            let c = Seq::new((x1 - x0) as nat, |i: int| ((x1 - 1 + -1 * i) as i32, (y1 + 0 * i) as i32));
            let d = Seq::new((y1 - y0 - 1) as nat, |i: int| ((x0 + 0 * i) as i32, (y1 - 1 + -1 * i) as i32));
            assert(out@ =~= start + (a + b + c + d));
            assert(a + b + c + d =~= ring(x0 as int, y0 as int, x1 as int, y1 as int));
        }
    }
}

fn push_spiral(out: &mut Vec<(i32, i32)>, x0: i32, y0: i32, x1: i32, y1: i32)
    requires
        0 <= x0 <= 256,
        0 <= y0 <= 256,
        -2 <= x1 <= 255,
        -2 <= y1 <= 255,
    ensures
        final(out)@ == old(out)@ + spiral(x0 as int, y0 as int, x1 as int, y1 as int),
    decreases ring_count(x0 as int, x1 as int),
{
    if x0 > x1 || y0 > y1 {
        assert(old(out)@ + spiral(x0 as int, y0 as int, x1 as int, y1 as int) =~= old(out)@);
        return;
    }
    let ghost start = out@;
    push_ring(out, x0, y0, x1, y1);
    push_spiral(out, x0 + 1, y0 + 1, x1 - 1, y1 - 1);
    proof {
        assert(out@ =~= start + spiral(x0 as int, y0 as int, x1 as int, y1 as int));
    }
}


// -- exec helpers ----------------------------------------------------------------

fn find_player(ps: &Vec<PlayerView>, id: u8) -> (r: Option<usize>)
    requires
        unique_players(ps@),
    ensures
        match r {
            Some(i) => player_index(ps@, id) == i,
            None => player_index(ps@, id) == -1,
        },
{
    let mut i: usize = 0;
    while i < ps.len()
        invariant
            i <= ps@.len(),
            unique_players(ps@),
            forall|j: int| 0 <= j < i ==> ps@[j].id != id,
        decreases ps.len() - i,
    {
        if ps[i].id == id {
            proof {
                let k = player_index(ps@, id);
                assert(0 <= k < ps@.len() && ps@[k].id == id);
            }
            return Some(i);
        }
        i = i + 1;
    }
    None
}

fn find_bomb(bs: &Vec<BombView>, id: u16) -> (r: Option<usize>)
    requires
        unique_bombs(bs@),
    ensures
        match r {
            Some(i) => bomb_index(bs@, id) == i,
            None => bomb_index(bs@, id) == -1,
        },
{
    let mut i: usize = 0;
    while i < bs.len()
        invariant
            i <= bs@.len(),
            unique_bombs(bs@),
            forall|j: int| 0 <= j < i ==> bs@[j].id != id,
        decreases bs.len() - i,
    {
        if bs[i].id == id {
            proof {
                let k = bomb_index(bs@, id);
                assert(0 <= k < bs@.len() && bs@[k].id == id);
            }
            return Some(i);
        }
        i = i + 1;
    }
    None
}

fn find_flame(fs: &Vec<FlameView>, x: u8, y: u8) -> (r: Option<usize>)
    requires
        unique_flames(fs@),
    ensures
        match r {
            Some(i) => flame_index(fs@, x, y) == i,
            None => flame_index(fs@, x, y) == -1,
        },
{
    let mut i: usize = 0;
    while i < fs.len()
        invariant
            i <= fs@.len(),
            unique_flames(fs@),
            forall|j: int| 0 <= j < i ==> !(fs@[j].x == x && fs@[j].y == y),
        decreases fs.len() - i,
    {
        if fs[i].x == x && fs[i].y == y {
            proof {
                let k = flame_index(fs@, x, y);
                assert(0 <= k < fs@.len() && fs@[k].x == x && fs@[k].y == y);
            }
            return Some(i);
        }
        i = i + 1;
    }
    None
}

fn find_powerup(ps: &Vec<PowerupView>, id: u16) -> (r: Option<usize>)
    requires
        unique_powerups(ps@),
    ensures
        match r {
            Some(i) => powerup_index(ps@, id) == i,
            None => powerup_index(ps@, id) == -1,
        },
{
    let mut i: usize = 0;
    while i < ps.len()
        invariant
            i <= ps@.len(),
            unique_powerups(ps@),
            forall|j: int| 0 <= j < i ==> ps@[j].id != id,
        decreases ps.len() - i,
    {
        if ps[i].id == id {
            proof {
                let k = powerup_index(ps@, id);
                assert(0 <= k < ps@.len() && ps@[k].id == id);
            }
            return Some(i);
        }
        i = i + 1;
    }
    None
}

// -- keeping the lists unique ------------------------------------------------------

proof fn lemma_put_player(ps: Seq<PlayerView>, p: PlayerView)
    requires
        unique_players(ps),
    ensures
        unique_players(put_player(ps, p)),
{
    let i = player_index(ps, p.id);
    if i < 0 {
        assert forall|a: int, b: int| 0 <= a < b < ps.len() + 1 implies put_player(ps, p)[a].id
            != put_player(ps, p)[b].id by {
            if b == ps.len() {
                assert(ps[a].id != p.id);
            }
        }
    }
}

proof fn lemma_put_bomb(bs: Seq<BombView>, b: BombView)
    requires
        unique_bombs(bs),
    ensures
        unique_bombs(put_bomb(bs, b)),
{
    let i = bomb_index(bs, b.id);
    if i < 0 {
        assert forall|x: int, y: int| 0 <= x < y < bs.len() + 1 implies put_bomb(bs, b)[x].id
            != put_bomb(bs, b)[y].id by {
            if y == bs.len() {
                assert(bs[x].id != b.id);
            }
        }
    }
}

proof fn lemma_put_flame(fs: Seq<FlameView>, f: FlameView)
    requires
        unique_flames(fs),
    ensures
        unique_flames(put_flame(fs, f)),
{
    let i = flame_index(fs, f.x, f.y);
    if i < 0 {
        assert forall|a: int, b: int| 0 <= a < b < fs.len() + 1 implies !(put_flame(fs, f)[a].x
            == put_flame(fs, f)[b].x && put_flame(fs, f)[a].y == put_flame(fs, f)[b].y) by {
            if b == fs.len() {
                assert(!(fs[a].x == f.x && fs[a].y == f.y));
            }
        }
    }
}

proof fn lemma_put_powerup(ps: Seq<PowerupView>, p: PowerupView)
    requires
        unique_powerups(ps),
    ensures
        unique_powerups(put_powerup(ps, p)),
{
    let i = powerup_index(ps, p.id);
    if i < 0 {
        assert forall|a: int, b: int| 0 <= a < b < ps.len() + 1 implies put_powerup(ps, p)[a].id
            != put_powerup(ps, p)[b].id by {
            if b == ps.len() {
                assert(ps[a].id != p.id);
            }
        }
    }
}


proof fn lemma_drop_bomb(bs: Seq<BombView>, id: u16)
    requires
        unique_bombs(bs),
    ensures
        unique_bombs(drop_bomb(bs, id)),
{
    let i = bomb_index(bs, id);
    if i >= 0 {
        let r = bs.remove(i);
        assert forall|a: int, b: int| 0 <= a < b < r.len() implies r[a].id != r[b].id by {
            let a2 = if a < i { a } else { a + 1 };
            let b2 = if b < i { b } else { b + 1 };
            assert(r[a] == bs[a2] && r[b] == bs[b2]);
        }
    }
}

proof fn lemma_drop_flame(fs: Seq<FlameView>, x: u8, y: u8)
    requires
        unique_flames(fs),
    ensures
        unique_flames(drop_flame(fs, x, y)),
{
    let i = flame_index(fs, x, y);
    if i >= 0 {
        let r = fs.remove(i);
        assert forall|a: int, b: int| 0 <= a < b < r.len() implies !(r[a].x == r[b].x && r[a].y
            == r[b].y) by {
            let a2 = if a < i { a } else { a + 1 };
            let b2 = if b < i { b } else { b + 1 };
            assert(r[a] == fs[a2] && r[b] == fs[b2]);
        }
    }
}

proof fn lemma_drop_powerup(ps: Seq<PowerupView>, id: u16)
    requires
        unique_powerups(ps),
    ensures
        unique_powerups(drop_powerup(ps, id)),
{
    let i = powerup_index(ps, id);
    if i >= 0 {
        let r = ps.remove(i);
        assert forall|a: int, b: int| 0 <= a < b < r.len() implies r[a].id != r[b].id by {
            let a2 = if a < i { a } else { a + 1 };
            let b2 = if b < i { b } else { b + 1 };
            assert(r[a] == ps[a2] && r[b] == ps[b2]);
        }
    }
}

/// Cell (x, y) of a `w` by `h` grid, stored row by row.
proof fn lemma_cell_index(x: int, y: int, w: int, h: int)
    requires
        0 <= x < w,
        0 <= y < h,
        w <= 255,
        h <= 255,
    ensures
        0 <= y * w + x < w * h,
        y * w + x < 65536,
{
    assert(0 <= y * w + x < w * h && y * w + x < 65536) by (nonlinear_arith)
        requires
            0 <= x < w,
            0 <= y < h,
            w <= 255,
            h <= 255,
    ;
}

/// A counter stamped at `seen` and aged to `now`; it never goes below zero,
/// and a clock behind the stamp does not age it.
pub open spec fn aged(value: int, seen: int, now: int) -> int {
    let gone = if now - seen > 0 { now - seen } else { 0 };
    if value - gone > 0 {
        value - gone
    } else {
        0
    }
}

impl World {
    /// An empty board of the given tiles, with nobody on it.
    pub fn from_tiles(width: u8, height: u8, tiles: Vec<Tile>) -> (w: World)
        requires
            tiles@.len() == width as int * height as int,
        ensures
            w@.width == width,
            w@.height == height,
            w@.tiles == tiles@,
            w@.players.len() == 0,
            w@.bombs.len() == 0,
            w@.flames.len() == 0,
            w@.powerups.len() == 0,
            w@.ticks_remaining == 0,
            w@.tick == 0,
            world_wf(w@),
    {
        World {
            width,
            height,
            tiles,
            players: Vec::new(),
            bombs: Vec::new(),
            flames: Vec::new(),
            powerups: Vec::new(),
            ticks_remaining: 0,
            tick: 0,
        }
    }

    /// Out of bounds reads as a wall, which is what every caller wants.
    pub fn tile(&self, x: i32, y: i32) -> (t: Tile)
        requires
            world_wf(self@),
        ensures
            t == tile_at(self@, x as int, y as int),
    {
        if x < 0 || y < 0 || x >= self.width as i32 || y >= self.height as i32 {
            return Tile::Solid;
        }
        proof {
            lemma_cell_index(x as int, y as int, self.width as int, self.height as int);
        }
        self.tiles[y as usize * self.width as usize + x as usize]
    }

    fn set_tile(&mut self, x: u8, y: u8, tile: Tile)
        requires
            world_wf(old(self)@),
        ensures
            final(self)@ == set_tile_spec(old(self)@, x, y, tile),
            world_wf(final(self)@),
    {
        if x < self.width && y < self.height {
            proof {
                lemma_cell_index(x as int, y as int, self.width as int, self.height as int);
            }
            let i = y as usize * self.width as usize + x as usize;
            self.tiles.set(i, tile);
        }
    }

    /// Overwrites one cell; a cell off the board is left alone.
    pub fn set_tile_for_test(&mut self, x: u8, y: u8, tile: Tile)
        requires
            world_wf(old(self)@),
        ensures
            final(self)@ == set_tile_spec(old(self)@, x, y, tile),
            world_wf(final(self)@),
    {
        self.set_tile(x, y, tile);
    }

    pub fn bomb_at(&self, x: i32, y: i32) -> (r: bool)
        ensures
            r == has_bomb_at(self@, x as int, y as int),
    {
        let mut i: usize = 0;
        while i < self.bombs.len()
            invariant
                i <= self.bombs@.len(),
                forall|j: int|
                    0 <= j < i ==> !(self.bombs@[j].x == x && self.bombs@[j].y == y),
            decreases self.bombs.len() - i,
        {
            if self.bombs[i].x as i32 == x && self.bombs[i].y as i32 == y {
                let ghost k = i as int;
                assert(0 <= k < self@.bombs.len() && self@.bombs[k].x == x as int
                    && self@.bombs[k].y == y as int);
                return true;
            }
            i = i + 1;
        }
        false
    }

    /// The player with this id, if the world knows one.
    pub fn player(&self, id: u8) -> (r: Option<PlayerView>)
        requires
            unique_players(self.players@),
        ensures
            match r {
                Some(p) => player_index(self@.players, id) >= 0 && p == self@.players[player_index(
                    self@.players,
                    id,
                )],
                None => player_index(self@.players, id) == -1,
            },
    {
        match find_player(&self.players, id) {
            Some(i) => Some(self.players[i]),
            None => None,
        }
    }

    /// The bomb with this id, if there is one.
    pub fn bomb(&self, id: u16) -> (r: Option<BombView>)
        requires
            unique_bombs(self.bombs@),
        ensures
            match r {
                Some(b) => bomb_index(self@.bombs, id) >= 0 && b == self@.bombs[bomb_index(
                    self@.bombs,
                    id,
                )],
                None => bomb_index(self@.bombs, id) == -1,
            },
    {
        match find_bomb(&self.bombs, id) {
            Some(i) => Some(self.bombs[i]),
            None => None,
        }
    }

    /// The flame burning on (x, y), if any.
    pub fn flame(&self, x: u8, y: u8) -> (r: Option<FlameView>)
        requires
            unique_flames(self.flames@),
        ensures
            match r {
                Some(f) => flame_index(self@.flames, x, y) >= 0 && f == self@.flames[flame_index(
                    self@.flames,
                    x,
                    y,
                )],
                None => flame_index(self@.flames, x, y) == -1,
            },
    {
        match find_flame(&self.flames, x, y) {
            Some(i) => Some(self.flames[i]),
            None => None,
        }
    }

    /// Stores a player under its id, replacing any entry with that id.
    pub fn insert_player(&mut self, p: PlayerView)
        requires
            world_wf(old(self)@),
        ensures
            final(self)@ == (WorldView { players: put_player(old(self)@.players, p), ..old(self)@ }),
            world_wf(final(self)@),
    {
        proof {
            lemma_put_player(self.players@, p);
        }
        match find_player(&self.players, p.id) {
            Some(i) => self.players.set(i, p),
            None => self.players.push(p),
        }
    }

    /// Stores a bomb under its id, replacing any entry with that id.
    pub fn insert_bomb(&mut self, b: BombView)
        requires
            world_wf(old(self)@),
        ensures
            final(self)@ == (WorldView { bombs: put_bomb(old(self)@.bombs, b), ..old(self)@ }),
            world_wf(final(self)@),
    {
        proof {
            lemma_put_bomb(self.bombs@, b);
        }
        match find_bomb(&self.bombs, b.id) {
            Some(i) => self.bombs.set(i, b),
            None => self.bombs.push(b),
        }
    }

    /// Stores a flame under its cell, replacing any flame there.
    pub fn insert_flame(&mut self, f: FlameView)
        requires
            world_wf(old(self)@),
        ensures
            final(self)@ == (WorldView { flames: put_flame(old(self)@.flames, f), ..old(self)@ }),
            world_wf(final(self)@),
    {
        proof {
            lemma_put_flame(self.flames@, f);
        }
        match find_flame(&self.flames, f.x, f.y) {
            Some(i) => self.flames.set(i, f),
            None => self.flames.push(f),
        }
    }

    /// Stores a power-up under its id, replacing any entry with that id.
    pub fn insert_powerup(&mut self, p: PowerupView)
        requires
            world_wf(old(self)@),
        ensures
            final(self)@ == (WorldView {
                powerups: put_powerup(old(self)@.powerups, p),
                ..old(self)@
            }),
            world_wf(final(self)@),
    {
        proof {
            lemma_put_powerup(self.powerups@, p);
        }
        match find_powerup(&self.powerups, p.id) {
            Some(i) => self.powerups.set(i, p),
            None => self.powerups.push(p),
        }
    }

    /// Everything a keyframe says, replacing whatever was known before.
    pub fn from_keyframe(frame: &Keyframe) -> (w: World)
        requires
            frame.cells@.len() == frame.width as int * frame.height as int,
        ensures
            w@ == keyframe_world(*frame),
            world_wf(w@),
    {
        let mut tiles: Vec<Tile> = Vec::new();
        let mut i: usize = 0;
        while i < frame.cells.len()
            invariant
                i <= frame.cells@.len(),
                tiles@ == frame.cells@.take(i as int),
            decreases frame.cells.len() - i,
        {
            tiles.push(frame.cells[i]);
            i = i + 1;
        }
        proof {
            assert(frame.cells@.take(frame.cells@.len() as int) =~= frame.cells@);
        }
        let mut w = World::from_tiles(frame.width, frame.height, tiles);
        w.ticks_remaining = frame.ticks_remaining;
        w.tick = frame.tick;
        let ghost w0 = w@;
        assert(players_from(frame.players@.take(0)) =~= Seq::<PlayerView>::empty());
        let mut i: usize = 0;
        while i < frame.players.len()
            invariant
                i <= frame.players@.len(),
                world_wf(w@),
                w@ == (WorldView { players: players_from(frame.players@.take(i as int)), ..w0 }),
            decreases frame.players.len() - i,
        {
            proof {
                assert(frame.players@.take(i as int + 1).drop_last() =~= frame.players@.take(
                    i as int,
                ));
            }
            w.insert_player(frame.players[i]);
            i = i + 1;
        }
        proof {
            assert(frame.players@.take(frame.players@.len() as int) =~= frame.players@);
        }
        let ghost w1 = w@;
        assert(bombs_from(frame.bombs@.take(0), frame.tick) =~= Seq::<BombView>::empty());
        let mut i: usize = 0;
        while i < frame.bombs.len()
            invariant
                i <= frame.bombs@.len(),
                world_wf(w@),
                w@ == (WorldView {
                    bombs: bombs_from(frame.bombs@.take(i as int), frame.tick),
                    ..w1
                }),
            decreases frame.bombs.len() - i,
        {
            proof {
                assert(frame.bombs@.take(i as int + 1).drop_last() =~= frame.bombs@.take(
                    i as int,
                ));
            }
            let b = frame.bombs[i];
            w.insert_bomb(
                BombView {
                    id: b.id,
                    owner: b.owner,
                    x: b.x,
                    y: b.y,
                    fuse: b.fuse_remaining,
                    seen_tick: frame.tick,
                },
            );
            i = i + 1;
        }
        proof {
            assert(frame.bombs@.take(frame.bombs@.len() as int) =~= frame.bombs@);
        }
        let ghost w2 = w@;
        assert(flames_from(frame.flames@.take(0), frame.tick) =~= Seq::<FlameView>::empty());
        let mut i: usize = 0;
        while i < frame.flames.len()
            invariant
                i <= frame.flames@.len(),
                world_wf(w@),
                w@ == (WorldView {
                    flames: flames_from(frame.flames@.take(i as int), frame.tick),
                    ..w2
                }),
            decreases frame.flames.len() - i,
        {
            proof {
                assert(frame.flames@.take(i as int + 1).drop_last() =~= frame.flames@.take(
                    i as int,
                ));
            }
            let f = frame.flames[i];
            w.insert_flame(
                FlameView { x: f.x, y: f.y, ticks: f.ticks_remaining, seen_tick: frame.tick },
            );
            i = i + 1;
        }
        proof {
            assert(frame.flames@.take(frame.flames@.len() as int) =~= frame.flames@);
        }
        let ghost w3 = w@;
        assert(powerups_from(frame.powerups@.take(0)) =~= Seq::<PowerupView>::empty());
        let mut i: usize = 0;
        while i < frame.powerups.len()
            invariant
                i <= frame.powerups@.len(),
                world_wf(w@),
                w@ == (WorldView {
                    powerups: powerups_from(frame.powerups@.take(i as int)),
                    ..w3
                }),
            decreases frame.powerups.len() - i,
        {
            proof {
                assert(frame.powerups@.take(i as int + 1).drop_last() =~= frame.powerups@.take(
                    i as int,
                ));
            }
            w.insert_powerup(frame.powerups[i]);
            i = i + 1;
        }
        proof {
            assert(frame.powerups@.take(frame.powerups@.len() as int) =~= frame.powerups@);
        }
        w
    }

    fn apply_record(&mut self, tick: u32, r: DeltaRecord, fx: &mut Vec<FxEvent>)
        requires
            world_wf(old(self)@),
        ensures
            final(self)@ == apply_one(old(self)@, tick, r).0,
            final(fx)@ == old(fx)@ + apply_one(old(self)@, tick, r).1,
            world_wf(final(self)@),
    {
        match r {
            DeltaRecord::PlayerState { id, alive, moving, x, y, dir, move_progress } => {
                let base = match self.player(id) {
                    Some(p) => p,
                    None => PlayerView {
                        id,
                        alive,
                        moving,
                        x,
                        y,
                        dir,
                        move_progress,
                        bombs_max: 1,
                        flame: 1,
                        speed: 0,
                        score: 0,
                    },
                };
                self.insert_player(PlayerView { alive, moving, x, y, dir, move_progress, ..base });
            },
            DeltaRecord::PlayerStats { id, bombs_max, flame, speed, score } => {
                match find_player(&self.players, id) {
                    Some(i) => {
                        let p = PlayerView { bombs_max, flame, speed, score, ..self.players[i] };
                        self.players.set(i, p);
                    },
                    None => {},
                }
            },
            DeltaRecord::BombAdd { id, owner, x, y, fuse } => {
                self.insert_bomb(BombView { id, owner, x, y, fuse, seen_tick: tick });
                fx.push(FxEvent::BombPlaced { x, y });
            },
            DeltaRecord::BombRemove { id } => {
                proof {
                    lemma_drop_bomb(self.bombs@, id);
                }
                match find_bomb(&self.bombs, id) {
                    Some(i) => {
                        self.bombs.remove(i);
                    },
                    None => {},
                }
            },
            DeltaRecord::Explosion { x, y, up, down, left, right } => {
                fx.push(FxEvent::Explosion { x, y, up, down, left, right });
            },
            DeltaRecord::TileSet { x, y, tile } => {
                if tile == Tile::Empty && self.tile(x as i32, y as i32) == Tile::Soft {
                    fx.push(FxEvent::CrateBroken { x, y });
                }
                self.set_tile(x, y, tile);
            },
            DeltaRecord::PowerupAdd { id, x, y, kind } => {
                self.insert_powerup(PowerupView { id, x, y, kind });
            },
            DeltaRecord::PowerupRemove { id, taken_by } => {
                proof {
                    lemma_drop_powerup(self.powerups@, id);
                }
                match find_powerup(&self.powerups, id) {
                    Some(i) => {
                        let p = self.powerups.remove(i);
                        match taken_by {
                            Some(player) => fx.push(
                                FxEvent::PowerupTaken { player, x: p.x, y: p.y, kind: p.kind },
                            ),
                            None => fx.push(FxEvent::PowerupBurned { x: p.x, y: p.y }),
                        }
                    },
                    None => {},
                }
            },
            DeltaRecord::PlayerDeath { id, killer: _ } => {
                match find_player(&self.players, id) {
                    Some(i) => {
                        let p = PlayerView { alive: false, ..self.players[i] };
                        self.players.set(i, p);
                        fx.push(FxEvent::PlayerDied { player: id, x: p.x, y: p.y });
                    },
                    None => {},
                }
            },
            DeltaRecord::FlameAdd { x, y, ticks } => {
                self.insert_flame(FlameView { x, y, ticks, seen_tick: tick });
            },
            DeltaRecord::FlameRemove { x, y } => {
                proof {
                    lemma_drop_flame(self.flames@, x, y);
                }
                match find_flame(&self.flames, x, y) {
                    Some(i) => {
                        self.flames.remove(i);
                    },
                    None => {},
                }
            },
            DeltaRecord::Timer { ticks_remaining } => {
                self.ticks_remaining = ticks_remaining;
            },
            DeltaRecord::WallClosed { x, y } => {
                self.set_tile(x, y, Tile::Solid);
                fx.push(FxEvent::WallClosed { x, y });
            },
        }
    }

    /// Applies one delta: every record in order, then the world stands at
    /// `tick`. The effects worth showing are appended to `fx`. The caller has
    /// checked the delta's base tick.
    pub fn apply(&mut self, tick: u32, records: &[DeltaRecord], fx: &mut Vec<FxEvent>)
        requires
            world_wf(old(self)@),
        ensures
            final(self)@ == apply_delta(old(self)@, tick, records@).0,
            final(fx)@ == old(fx)@ + apply_delta(old(self)@, tick, records@).1,
            world_wf(final(self)@),
    {
        let ghost w0 = self@;
        let ghost fx0 = fx@;
        assert(fx@ =~= fx0 + apply_all(w0, tick, records@.take(0)).1);
        let mut k: usize = 0;
        while k < records.len()
            invariant
                k <= records@.len(),
                world_wf(self@),
                self@ == apply_all(w0, tick, records@.take(k as int)).0,
                fx@ == fx0 + apply_all(w0, tick, records@.take(k as int)).1,
            decreases records.len() - k,
        {
            proof {
                assert(records@.take(k as int + 1).drop_last() =~= records@.take(k as int));
                assert(records@.take(k as int + 1).last() == records@[k as int]);
            }
            let ghost before = fx@;
            self.apply_record(tick, records[k], fx);
            proof {
                let prev = apply_all(w0, tick, records@.take(k as int));
                let step = apply_one(prev.0, tick, records@[k as int]);
                assert(fx@ =~= fx0 + (prev.1 + step.1));
            }
            k = k + 1;
        }
        proof {
            assert(records@.take(records@.len() as int) =~= records@);
        }
        self.tick = tick;
    }

    /// Cells in the exact order sudden death walls them in, as the server
    /// computes it: ring by ring from the outside in, each ring clockwise from
    /// its top-left cell. Cell `i` closes at `sudden_death_tick + 6 * i`.
    pub fn closing_order(width: u8, height: u8) -> (r: Vec<(i32, i32)>)
        ensures
            r@ == closing_order_spec(width, height),
    {
        let mut out: Vec<(i32, i32)> = Vec::new();
        push_spiral(&mut out, 1, 1, width as i32 - 2, height as i32 - 2);
        assert(out@ =~= closing_order_spec(width, height));
        out
    }

    /// A bomb's fuse aged to `now`.
    pub fn fuse_left(&self, bomb: &BombView, now: u32) -> (r: u16)
        ensures
            r as int == aged(bomb.fuse as int, bomb.seen_tick as int, now as int),
    {
        let gone: u32 = now.saturating_sub(bomb.seen_tick);
        let gone: u16 = if gone > 65535 { 65535 } else { gone as u16 };
        bomb.fuse.saturating_sub(gone)
    }

    /// A flame's remaining burn aged to `now`.
    pub fn flame_left(&self, flame: &FlameView, now: u32) -> (r: u8)
        ensures
            r as int == aged(flame.ticks as int, flame.seen_tick as int, now as int),
    {
        let gone: u32 = now.saturating_sub(flame.seen_tick);
        let gone: u8 = if gone > 255 { 255 } else { gone as u8 };
        flame.ticks.saturating_sub(gone)
    }
}


// -- laws ----------------------------------------------------------------------------

/// A record neither reads nor changes the tick a world is stamped with.
proof fn lemma_apply_all_keeps_stamp(w: WorldView, stamp: u32, tick: u32, rs: Seq<DeltaRecord>)
    ensures
        apply_all(WorldView { tick: stamp, ..w }, tick, rs).0 == (WorldView {
            tick: stamp,
            ..apply_all(w, tick, rs).0
        }),
        apply_all(WorldView { tick: stamp, ..w }, tick, rs).1 == apply_all(w, tick, rs).1,
    decreases rs.len(),
{
    if rs.len() > 0 {
        lemma_apply_all_keeps_stamp(w, stamp, tick, rs.drop_last());
        let x = apply_all(w, tick, rs.drop_last()).0;
        let xs = WorldView { tick: stamp, ..x };
        assert(tile_at(xs, 0, 0) == tile_at(x, 0, 0));
        match rs.last() {
            DeltaRecord::TileSet { x: cx, y: cy, tile } => {
                assert(tile_at(xs, cx as int, cy as int) == tile_at(x, cx as int, cy as int));
            },
            _ => {},
        }
    }
}

/// Records applied one list after another are the two lists applied as one,
/// with the effects in the same order.
proof fn lemma_apply_all_split(w: WorldView, tick: u32, a: Seq<DeltaRecord>, b: Seq<DeltaRecord>)
    ensures
        apply_all(apply_all(w, tick, a).0, tick, b).0 == apply_all(w, tick, a + b).0,
        apply_all(w, tick, a).1 + apply_all(apply_all(w, tick, a).0, tick, b).1 == apply_all(
            w,
            tick,
            a + b,
        ).1,
    decreases b.len(),
{
    if b.len() == 0 {
        assert(a + b =~= a);
    } else {
        lemma_apply_all_split(w, tick, a, b.drop_last());
        assert((a + b).drop_last() =~= a + b.drop_last());
        assert((a + b).last() == b.last());
        let mid = apply_all(apply_all(w, tick, a).0, tick, b.drop_last());
        let last = apply_one(mid.0, tick, b.last());
        assert(apply_all(w, tick, a).1 + (mid.1 + last.1) =~= (apply_all(w, tick, a).1 + mid.1)
            + last.1);
    }
}

/// Two deltas for the same tick, applied one after the other, leave the world
/// and the effects exactly as the one delta that holds both record lists.
pub proof fn lemma_apply_split(w: WorldView, tick: u32, a: Seq<DeltaRecord>, b: Seq<DeltaRecord>)
    ensures
        apply_delta(apply_delta(w, tick, a).0, tick, b).0 == apply_delta(w, tick, a + b).0,
        apply_delta(w, tick, a).1 + apply_delta(apply_delta(w, tick, a).0, tick, b).1
            == apply_delta(w, tick, a + b).1,
{
    let x = apply_all(w, tick, a).0;
    lemma_apply_all_keeps_stamp(x, tick, tick, b);
    lemma_apply_all_split(w, tick, a, b);
}

/// Applying a delta keeps a world well-formed: a full grid and one entry per
/// key in every list.
pub proof fn lemma_apply_keeps_wf(w: WorldView, tick: u32, rs: Seq<DeltaRecord>)
    requires
        world_wf(w),
    ensures
        world_wf(apply_delta(w, tick, rs).0),
    decreases rs.len(),
{
    if rs.len() > 0 {
        lemma_apply_keeps_wf(w, tick, rs.drop_last());
        lemma_apply_all_keeps_stamp(w, w.tick, tick, rs.drop_last());
        let x = apply_all(w, tick, rs.drop_last()).0;
        assert(world_wf(x));
        lemma_apply_one_keeps_wf(x, tick, rs.last());
    }
}

proof fn lemma_same_id_update(ps: Seq<PlayerView>, i: int, p: PlayerView)
    requires
        unique_players(ps),
        0 <= i < ps.len(),
        p.id == ps[i].id,
    ensures
        unique_players(ps.update(i, p)),
{
    let r = ps.update(i, p);
    assert forall|a: int, b: int| 0 <= a < b < r.len() implies r[a].id != r[b].id by {
        assert(r[a].id == ps[a].id && r[b].id == ps[b].id);
    }
}

proof fn lemma_apply_one_keeps_wf(w: WorldView, tick: u32, r: DeltaRecord)
    requires
        world_wf(w),
    ensures
        world_wf(apply_one(w, tick, r).0),
{
    match r {
        DeltaRecord::PlayerState { id, alive, moving, x, y, dir, move_progress } => {
            let i = player_index(w.players, id);
            let base = if i >= 0 {
                w.players[i]
            } else {
                PlayerView {
                    id,
                    alive,
                    moving,
                    x,
                    y,
                    dir,
                    move_progress,
                    bombs_max: 1,
                    flame: 1,
                    speed: 0,
                    score: 0,
                }
            };
            lemma_put_player(w.players, PlayerView { alive, moving, x, y, dir, move_progress, ..base });
        },
        DeltaRecord::PlayerStats { id, bombs_max, flame, speed, score } => {
            let i = player_index(w.players, id);
            if i >= 0 {
                lemma_same_id_update(
                    w.players,
                    i,
                    PlayerView { bombs_max, flame, speed, score, ..w.players[i] },
                );
            }
        },
        DeltaRecord::PlayerDeath { id, .. } => {
            let i = player_index(w.players, id);
            if i >= 0 {
                lemma_same_id_update(w.players, i, PlayerView { alive: false, ..w.players[i] });
            }
        },
        DeltaRecord::BombAdd { id, owner, x, y, fuse } => {
            lemma_put_bomb(w.bombs, BombView { id, owner, x, y, fuse, seen_tick: tick });
        },
        DeltaRecord::BombRemove { id } => {
            lemma_drop_bomb(w.bombs, id);
        },
        DeltaRecord::PowerupAdd { id, x, y, kind } => {
            lemma_put_powerup(w.powerups, PowerupView { id, x, y, kind });
        },
        DeltaRecord::PowerupRemove { id, .. } => {
            lemma_drop_powerup(w.powerups, id);
        },
        DeltaRecord::FlameAdd { x, y, ticks } => {
            lemma_put_flame(w.flames, FlameView { x, y, ticks, seen_tick: tick });
        },
        DeltaRecord::FlameRemove { x, y } => {
            lemma_drop_flame(w.flames, x, y);
        },
        DeltaRecord::TileSet { x, y, tile } => {
            if x < w.width && y < w.height {
                lemma_cell_index(x as int, y as int, w.width as int, w.height as int);
            }
        },
        DeltaRecord::WallClosed { x, y } => {
            if x < w.width && y < w.height {
                lemma_cell_index(x as int, y as int, w.width as int, w.height as int);
            }
        },
        _ => {},
    }
}

/// A removed bomb is gone: after a delta whose last record removes bomb `id`,
/// no bomb with that id is left, every other bomb is still there, and no
/// bomb is new.
pub proof fn lemma_removed_bomb_is_gone(w: WorldView, tick: u32, rs: Seq<DeltaRecord>, id: u16)
    requires
        world_wf(w),
    ensures
        ({
            let before = apply_delta(w, tick, rs).0;
            let after = apply_delta(w, tick, rs.push(DeltaRecord::BombRemove { id })).0;
            &&& forall|i: int| 0 <= i < after.bombs.len() ==> (#[trigger] after.bombs[i]).id != id
            &&& forall|b: BombView| #[trigger] before.bombs.contains(b) && b.id != id ==> after.bombs.contains(b)
            &&& forall|b: BombView| #[trigger] after.bombs.contains(b) ==> before.bombs.contains(b)
        }),
{
    lemma_apply_keeps_wf(w, tick, rs);
    let r = DeltaRecord::BombRemove { id };
    let rs2 = rs.push(r);
    assert(rs2.drop_last() =~= rs);
    assert(rs2.last() == r);
    let bs = apply_all(w, tick, rs).0.bombs;
    let after = apply_delta(w, tick, rs2).0.bombs;
    assert(after == drop_bomb(bs, id));
    assert(unique_bombs(bs));
    let i = bomb_index(bs, id);
    if i >= 0 {
        assert(bs[i].id == id);
        assert forall|k: int| 0 <= k < after.len() implies (#[trigger] after[k]).id != id by {
            if k < i {
                assert(after[k] == bs[k]);
            } else {
                assert(after[k] == bs[k + 1]);
            }
        }
        assert forall|b: BombView| #[trigger] bs.contains(b) && b.id != id implies after.contains(b) by {
            let k = choose|k: int| 0 <= k < bs.len() && bs[k] == b;
            if k < i {
                assert(after[k] == b);
            } else {
                assert(k != i);
                assert(after[k - 1] == b);
            }
        }
        assert forall|b: BombView| #[trigger] after.contains(b) implies bs.contains(b) by {
            let k = choose|k: int| 0 <= k < after.len() && after[k] == b;
            if k < i {
                assert(bs[k] == b);
            } else {
                assert(bs[k + 1] == b);
            }
        }
    } else {
        assert(after == bs);
    }
}

} // verus!
