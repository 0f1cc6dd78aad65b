//! What the server's UDP endpoint does with a datagram from a bot or a
//! client, before the arena hears of it.

use vstd::prelude::*;

use crate::codec::{
    action_of_code, decode_client_packet_spec, decode_seat_bot_spec, ClientPacket, SeatBotRequest,
};
use crate::domain::{is_lobby_request_spec, Action};

verus! {

/// Where a datagram goes.
#[derive(Debug, Clone, Copy, PartialEq, Eq, Structural)]
pub enum Route {
    /// Not a packet, from no seat, from a seat other than the one it names,
    /// or an unreadable seat-bot request: dropped without an answer.
    Ignore,
    /// A hello: seat the sender, or greet it again.
    Hello,
    /// A seated player switches a server bot on a seat.
    SeatBot(SeatBotRequest),
    /// Start, Pause, Resume or Abort from a seated player.
    Lobby { player: u8, action: Action, seq: u8 },
    /// A move for the running match.
    Move { player: u8, action: Action, seq: u8 },
}

pub open spec fn route_spec(raw: Seq<u8>, bound: Option<u8>) -> Route {
    match decode_client_packet_spec(raw) {
        Err(_) => Route::Ignore,
        Ok(p) => if p.action == Action::Hello {
            Route::Hello
        } else if bound != Some(p.player_id) {
            Route::Ignore
        } else if p.action == Action::SeatBot {
            match decode_seat_bot_spec(raw) {
                Ok(r) => Route::SeatBot(r),
                Err(_) => Route::Ignore,
            }
        } else if is_lobby_request_spec(p.action) {
            Route::Lobby { player: p.player_id, action: p.action, seq: p.seq }
        } else {
            Route::Move { player: p.player_id, action: p.action, seq: p.seq }
        },
    }
}

/// Routes a datagram from an address bound to the seat `bound`, if any.
/// The player id in byte 0 is a claim, not a credential: it is believed
/// only from the address that owns that seat. A hello needs no seat.
pub fn route(raw: &[u8], bound: Option<u8>) -> (r: Route)
    ensures
        r == route_spec(raw@, bound),
{
    let packet = match ClientPacket::decode(raw) {
        Ok(p) => p,
        Err(_) => return Route::Ignore,
    };
    if packet.is_hello() {
        return Route::Hello;
    }
    let owner = match bound {
        Some(b) => b,
        None => return Route::Ignore,
    };
    if packet.player_id != owner {
        return Route::Ignore;
    }
    if packet.action == Action::SeatBot {
        return match SeatBotRequest::decode(raw) {
            Ok(request) => Route::SeatBot(request),
            Err(_) => Route::Ignore,
        };
    }
    if packet.action.is_lobby_request() {
        return Route::Lobby { player: packet.player_id, action: packet.action, seq: packet.seq };
    }
    Route::Move { player: packet.player_id, action: packet.action, seq: packet.seq }
}

/// A command is believed only from the address its seat belongs to: every
/// datagram routed to the arena as a move, a lobby request or a seat-bot
/// request came from the address bound to the seat named in its first byte.
pub proof fn lemma_commands_only_from_their_seat(raw: Seq<u8>, bound: Option<u8>)
    ensures
        (route_spec(raw, bound) is Move || route_spec(raw, bound) is Lobby || route_spec(
            raw,
            bound,
        ) is SeatBot) ==> raw.len() >= 2 && bound == Some(raw[0]),
        route_spec(raw, bound) matches Route::SeatBot(r) ==> bound == Some(r.player),
{
}

/// Start, Pause, Resume and Abort from the address bound to their seat reach
/// the lobby as that player's request, with their action and sequence
/// number; a move for the match is only ever one of the ten moves.
pub proof fn lemma_lobby_requests_reach_the_lobby(raw: Seq<u8>, bound: Option<u8>)
    ensures
        ({
            let a = action_of_code(raw[1] % 16);
            (raw.len() >= 2 && bound == Some(raw[0]) && (a == Action::Start || a == Action::Pause
                || a == Action::Resume || a == Action::Abort)) ==> route_spec(raw, bound) == Route::Lobby {
                player: raw[0],
                action: a,
                seq: raw[1] / 16,
            }
        }),
        route_spec(raw, bound) matches Route::Move { action, .. } ==> (action == Action::Idle || action
            == Action::Up || action == Action::Down || action == Action::Left || action == Action::Right
            || action == Action::Bomb || action == Action::UpBomb || action == Action::DownBomb
            || action == Action::LeftBomb || action == Action::RightBomb),
{
}

} // verus!
