//! What the server sends a seat, as values: the frames a client or a bot
//! reacts to.

use vstd::prelude::*;

use crate::domain::Rules;
use crate::lobby_status::LobbyStatus;
use crate::world::{DeltaRecord, Keyframe};

verus! {

/// The server's tick rate, in ticks per second.
pub const TICK_RATE: u32 = 60;

/// A seat was given to us.
#[derive(Debug, Clone, Copy, PartialEq, Eq, Structural)]
pub struct Assigned {
    pub tick: u32,
    pub player_id: u8,
    pub tick_rate: u16,
    pub max_players: u8,
}

/// A match begins: its id, our seat and the rules it is played with.
#[derive(Debug, Clone, Copy, PartialEq, Eq, Structural)]
pub struct MatchInit {
    pub tick: u32,
    pub match_id: u32,
    pub your_player_id: u8,
    pub rules: Rules,
}

/// The edits that lead from the state at `base_tick` to the state at `tick`.
#[derive(Debug, Clone, PartialEq, Eq)]
pub struct Delta {
    pub tick: u32,
    pub base_tick: u32,
    pub records: Vec<DeltaRecord>,
}

/// Why a match ended.
#[derive(Debug, Clone, Copy, PartialEq, Eq, Structural)]
pub enum EndReason {
    LastStanding,
    Timeout,
    Aborted,
}

/// Where one player finished.
#[derive(Debug, Clone, Copy, PartialEq, Eq, Structural)]
pub struct PlayerResult {
    pub id: u8,
    /// 1 for the winner.
    pub placement: u8,
    pub score: u16,
}

/// A match is over.
#[derive(Debug, Clone, PartialEq, Eq)]
pub struct MatchEnd {
    pub tick: u32,
    pub reason: EndReason,
    pub winner: Option<u8>,
    pub results: Vec<PlayerResult>,
}

/// One frame from the server to a seat.
#[derive(Debug, Clone, PartialEq, Eq)]
pub enum ServerFrame {
    Assigned(Assigned),
    LobbyStatus(LobbyStatus),
    MatchInit(MatchInit),
    Keyframe(Keyframe),
    Delta(Delta),
    MatchEnd(MatchEnd),
}

/// A frame a world can be built from: every keyframe has a full grid.
pub open spec fn frame_ok(f: ServerFrame) -> bool {
    match f {
        ServerFrame::Keyframe(k) => k.cells@.len() == k.width as int * k.height as int,
        _ => true,
    }
}

} // verus!
