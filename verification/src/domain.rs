//! The vocabulary every other module speaks: tiles, directions, the action
//! codes of the uplink, lobby states and the rule constants of a match.

use vstd::prelude::*;

verus! {

/// One cell of the board.
#[derive(Clone, Copy, Debug, PartialEq, Eq, Structural)]
pub enum Tile {
    Empty,
    /// Indestructible wall.
    Solid,
    /// A crate: stops a blast arm and breaks.
    Soft,
}

#[derive(Clone, Copy, Debug, PartialEq, Eq, Structural)]
pub enum Direction {
    Up,
    Down,
    Left,
    Right,
}

/// The step a direction takes on the grid, `y` growing downwards.
pub open spec fn direction_delta(d: Direction) -> (int, int) {
    match d {
        Direction::Up => (0, -1),
        Direction::Down => (0, 1),
        Direction::Left => (-1, 0),
        Direction::Right => (1, 0),
    }
}

impl Direction {
    pub fn delta(self) -> (r: (i32, i32))
        ensures
            r.0 as int == direction_delta(self).0,
            r.1 as int == direction_delta(self).1,
    {
        match self {
            Direction::Up => (0, -1),
            Direction::Down => (0, 1),
            Direction::Left => (-1, 0),
            Direction::Right => (1, 0),
        }
    }
}

#[derive(Clone, Copy, Debug, PartialEq, Eq, Structural)]
pub enum PowerupKind {
    Flame,
    ExtraBomb,
    Speed,
}

/// What a player sends up the wire each tick: a move, a bomb, a move with a
/// bomb, or one of the lobby requests.
#[derive(Clone, Copy, Debug, PartialEq, Eq, Structural)]
pub enum Action {
    Idle,
    Up,
    Down,
    Left,
    Right,
    Bomb,
    UpBomb,
    DownBomb,
    LeftBomb,
    RightBomb,
    Start,
    Pause,
    Resume,
    Abort,
    SeatBot,
    Hello,
}

/// The four-bit code of each action on the wire.
pub open spec fn action_code(a: Action) -> u8 {
    match a {
        Action::Idle => 0,
        Action::Up => 1,
        Action::Down => 2,
        Action::Left => 3,
        Action::Right => 4,
        Action::Bomb => 5,
        Action::UpBomb => 6,
        Action::DownBomb => 7,
        Action::LeftBomb => 8,
        Action::RightBomb => 9,
        Action::Start => 10,
        Action::Pause => 11,
        Action::Resume => 12,
        Action::Abort => 13,
        Action::SeatBot => 14,
        Action::Hello => 15,
    }
}

/// Start, Pause, Resume, Abort and SeatBot: requests to the lobby rather
/// than moves in the match.
pub open spec fn is_lobby_request_spec(a: Action) -> bool {
    10 <= action_code(a) <= 14
}

/// The action that moves in `d`, with or without a bomb dropped first.
pub open spec fn moving_spec(d: Direction, bomb: bool) -> Action {
    match (d, bomb) {
        (Direction::Up, false) => Action::Up,
        (Direction::Down, false) => Action::Down,
        (Direction::Left, false) => Action::Left,
        (Direction::Right, false) => Action::Right,
        (Direction::Up, true) => Action::UpBomb,
        (Direction::Down, true) => Action::DownBomb,
        (Direction::Left, true) => Action::LeftBomb,
        (Direction::Right, true) => Action::RightBomb,
    }
}

impl Action {
    pub fn code(self) -> (c: u8)
        ensures
            c == action_code(self),
            c < 16,
    {
        match self {
            Action::Idle => 0,
            Action::Up => 1,
            Action::Down => 2,
            Action::Left => 3,
            Action::Right => 4,
            Action::Bomb => 5,
            Action::UpBomb => 6,
            Action::DownBomb => 7,
            Action::LeftBomb => 8,
            Action::RightBomb => 9,
            Action::Start => 10,
            Action::Pause => 11,
            Action::Resume => 12,
            Action::Abort => 13,
            Action::SeatBot => 14,
            Action::Hello => 15,
        }
    }

    /// Every four-bit code names exactly one action.
    pub fn from_code(code: u8) -> (r: Option<Action>)
        ensures
            code < 16 <==> r is Some,
            r matches Some(a) ==> action_code(a) == code,
    {
        match code {
            0 => Some(Action::Idle),
            1 => Some(Action::Up),
            2 => Some(Action::Down),
            3 => Some(Action::Left),
            4 => Some(Action::Right),
            5 => Some(Action::Bomb),
            6 => Some(Action::UpBomb),
            7 => Some(Action::DownBomb),
            8 => Some(Action::LeftBomb),
            9 => Some(Action::RightBomb),
            10 => Some(Action::Start),
            11 => Some(Action::Pause),
            12 => Some(Action::Resume),
            13 => Some(Action::Abort),
            14 => Some(Action::SeatBot),
            15 => Some(Action::Hello),
            _ => None,
        }
    }

    pub fn is_lobby_request(self) -> (r: bool)
        ensures
            r == is_lobby_request_spec(self),
    {
        let c = self.code();
        10 <= c && c <= 14
    }

    pub fn moving(dir: Direction, bomb: bool) -> (a: Action)
        ensures
            a == moving_spec(dir, bomb),
    {
        match (dir, bomb) {
            (Direction::Up, false) => Action::Up,
            (Direction::Down, false) => Action::Down,
            (Direction::Left, false) => Action::Left,
            (Direction::Right, false) => Action::Right,
            (Direction::Up, true) => Action::UpBomb,
            (Direction::Down, true) => Action::DownBomb,
            (Direction::Left, true) => Action::LeftBomb,
            (Direction::Right, true) => Action::RightBomb,
        }
    }
}

/// Where the lobby stands.
#[derive(Clone, Copy, Debug, PartialEq, Eq, Structural)]
pub enum LobbyState {
    Open,
    Locked,
    Countdown,
    Running,
    MatchOver,
}

pub open spec fn lobby_state_code(s: LobbyState) -> u8 {
    match s {
        LobbyState::Open => 0,
        LobbyState::Locked => 1,
        LobbyState::Countdown => 2,
        LobbyState::Running => 3,
        LobbyState::MatchOver => 4,
    }
}

impl LobbyState {
    pub fn code(self) -> (c: u8)
        ensures
            c == lobby_state_code(self),
    {
        match self {
            LobbyState::Open => 0,
            LobbyState::Locked => 1,
            LobbyState::Countdown => 2,
            LobbyState::Running => 3,
            LobbyState::MatchOver => 4,
        }
    }

    pub fn from_code(code: u8) -> (r: Option<LobbyState>)
        ensures
            code < 5 <==> r is Some,
            r matches Some(s) ==> lobby_state_code(s) == code,
    {
        match code {
            0 => Some(LobbyState::Open),
            1 => Some(LobbyState::Locked),
            2 => Some(LobbyState::Countdown),
            3 => Some(LobbyState::Running),
            4 => Some(LobbyState::MatchOver),
            _ => None,
        }
    }
}

/// The rule constants a match is played with, as MATCH_INIT announces them.
#[derive(Clone, Copy, Debug, PartialEq, Eq, Structural)]
pub struct Rules {
    /// Length of a round; 0 means no time limit.
    pub round_time_ticks: u32,
    /// Match tick at which the border starts closing in.
    pub sudden_death_tick: u32,
    pub bomb_fuse_ticks: u16,
    pub flame_duration_ticks: u16,
    /// The largest blast radius power-ups can reach.
    pub max_flame: u8,
    /// Ticks one step takes at speed 0.
    pub base_ticks_per_cell: u8,
    /// No speed makes a step shorter than this.
    pub min_ticks_per_cell: u8,
}

/// Ticks a step takes at `speed`: one tick less per speed level, down to
/// the floor.
pub open spec fn ticks_per_cell_spec(rules: Rules, speed: u8) -> int {
    if rules.base_ticks_per_cell as int - speed as int >= rules.min_ticks_per_cell as int {
        rules.base_ticks_per_cell as int - speed as int
    } else {
        rules.min_ticks_per_cell as int
    }
}

impl Rules {
    pub fn ticks_per_cell_at(&self, speed: u8) -> (t: u8)
        ensures
            t as int == ticks_per_cell_spec(*self, speed),
    {
        if speed <= self.base_ticks_per_cell && self.base_ticks_per_cell - speed
            >= self.min_ticks_per_cell {
            self.base_ticks_per_cell - speed
        } else {
            self.min_ticks_per_cell
        }
    }
}

impl Default for Rules {
    fn default() -> (r: Rules)
        ensures
            r.round_time_ticks == 10800,
            r.sudden_death_tick == 7200,
            r.bomb_fuse_ticks == 120,
            r.flame_duration_ticks == 30,
            r.max_flame == 8,
            r.base_ticks_per_cell == 8,
            r.min_ticks_per_cell == 4,
    {
        Rules {
            round_time_ticks: 10800,
            sudden_death_tick: 7200,
            bomb_fuse_ticks: 120,
            flame_duration_ticks: 30,
            max_flame: 8,
            base_ticks_per_cell: 8,
            min_ticks_per_cell: 4,
        }
    }
}

} // verus!
