//! What the lobby screen tells the player, and the name field's editing: the
//! decisions behind two pieces of the client's interface.

use vstd::prelude::*;

use crate::domain::LobbyState;
use crate::lobby_status::SeatStatus;
use crate::session::Session;
use crate::text::{chars_of, is_control, is_control_char, string_of};

verus! {

/// The line under the lobby's seats.
#[derive(Debug, Clone, Copy, PartialEq, Eq, Structural)]
pub enum LobbyHint {
    /// No lobby heard of yet: nothing to say.
    Nothing,
    /// The server sends no details: players cannot start here.
    NoPlayerStart,
    Paused,
    /// Only the moderation starts matches.
    ModeratorStarts,
    Locked,
    /// Ready, but this many seated players do not answer.
    Unresponsive(usize),
    /// Everyone may start.
    Ready,
    /// Waiting for players: so many connected, at least so many needed.
    Waiting { connected: u8, needed: u8 },
}

/// How many seats are taken by players who stopped answering.
pub open spec fn stale_seats(seats: Seq<SeatStatus>) -> int
    decreases seats.len(),
{
    if seats.len() == 0 {
        0
    } else {
        stale_seats(seats.drop_last()) + if seats.last().occupied && seats.last().stale {
            1int
        } else {
            0int
        }
    }
}

pub open spec fn lobby_hint_spec(s: Session) -> LobbyHint {
    match s.lobby {
        None => LobbyHint::Nothing,
        Some(l) => match l.details {
            None => LobbyHint::NoPlayerStart,
            Some(d) => if d.paused {
                LobbyHint::Paused
            } else if !d.player_control {
                LobbyHint::ModeratorStarts
            } else if l.state == LobbyState::Locked && !d.can_start {
                LobbyHint::Locked
            } else if d.can_start {
                let stale = stale_seats(d.seats@);
                if stale > 0 {
                    LobbyHint::Unresponsive(stale as usize)
                } else {
                    LobbyHint::Ready
                }
            } else {
                LobbyHint::Waiting { connected: l.players_connected, needed: d.min_players }
            },
        },
    }
}

/// The hint the lobby screen shows.
pub fn lobby_hint(s: &Session) -> (h: LobbyHint)
    ensures
        h == lobby_hint_spec(*s),
{
    let lobby = match &s.lobby {
        Some(l) => l,
        None => return LobbyHint::Nothing,
    };
    let d = match &lobby.details {
        Some(d) => d,
        None => return LobbyHint::NoPlayerStart,
    };
    if d.paused {
        return LobbyHint::Paused;
    }
    if !d.player_control {
        return LobbyHint::ModeratorStarts;
    }
    if lobby.state == LobbyState::Locked && !d.can_start {
        return LobbyHint::Locked;
    }
    if d.can_start {
        let mut stale: usize = 0;
        let mut i: usize = 0;
        while i < d.seats.len()
            invariant
                i <= d.seats@.len(),
                stale == stale_seats(d.seats@.take(i as int)),
                stale <= i,
            decreases d.seats.len() - i,
        {
            proof {
                assert(d.seats@.take(i as int + 1).drop_last() =~= d.seats@.take(i as int));
            }
            if d.seats[i].occupied && d.seats[i].stale {
                stale = stale + 1;
            }
            i = i + 1;
        }
        proof {
            assert(d.seats@.take(d.seats@.len() as int) =~= d.seats@);
        }
        if stale > 0 {
            return LobbyHint::Unresponsive(stale);
        }
        return LobbyHint::Ready;
    }
    LobbyHint::Waiting { connected: lobby.players_connected, needed: d.min_players }
}

/// Typed characters applied to a field's text: a backspace removes the last
/// character, other control characters are ignored, and the rest are added
/// while the text is shorter than `max`.
pub open spec fn edit_spec(value: Seq<char>, typed: Seq<char>, max: int) -> Seq<char>
    decreases typed.len(),
{
    if typed.len() == 0 {
        value
    } else {
        let before = edit_spec(value, typed.drop_last(), max);
        let c = typed.last();
        if c == '\u{8}' {
            if before.len() > 0 {
                before.drop_last()
            } else {
                before
            }
        } else if is_control_char(c) {
            before
        } else if before.len() < max {
            before.push(c)
        } else {
            before
        }
    }
}

/// A single-line text field. Focus is managed by the owner.
#[derive(Debug, Clone)]
pub struct TextField {
    pub value: String,
    pub max_chars: usize,
}

impl TextField {
    pub fn new(value: &str, max_chars: usize) -> (f: TextField)
        ensures
            f.value@ == value@,
            f.max_chars == max_chars,
    {
        let chars = chars_of(value);
        TextField { value: string_of(chars.as_slice()), max_chars }
    }

    /// Feeds this frame's typed characters. Call only for the focused field.
    /// Some platforms deliver Backspace only as a key, not as a character:
    /// `backspace_key` says whether the key went down this frame, and it
    /// removes a character when no backspace character came with it.
    pub fn edit(&mut self, typed: &[char], backspace_key: bool)
        ensures
            ({
                let typed_value = edit_spec(old(self).value@, typed@, old(self).max_chars as int);
                final(self).value@ == if backspace_key && !typed@.contains('\u{8}')
                    && typed_value.len() > 0 {
                    typed_value.drop_last()
                } else {
                    typed_value
                }
            }),
            final(self).max_chars == old(self).max_chars,
    {
        let mut v = chars_of(self.value.as_str());
        let ghost start = v@;
        let mut saw_backspace = false;
        let mut i: usize = 0;
        while i < typed.len()
            invariant
                i <= typed@.len(),
                v@ == edit_spec(start, typed@.take(i as int), self.max_chars as int),
                saw_backspace == typed@.take(i as int).contains('\u{8}'),
            decreases typed.len() - i,
        {
            proof {
                assert(typed@.take(i as int + 1).drop_last() =~= typed@.take(i as int));
            }
            let c = typed[i];
            if c == '\u{8}' {
                saw_backspace = true;
                if v.len() > 0 {
                    v.pop();
                }
            } else if is_control(c) {
            } else if v.len() < self.max_chars {
                v.push(c);
            }
            proof {
                let t = typed@.take(i as int + 1);
                assert(t.last() == c);
                assert(t[i as int] == c);
                if typed@.take(i as int).contains('\u{8}') {
                    let k = choose|k: int| 0 <= k < i && typed@.take(i as int)[k] == '\u{8}';
                    assert(t[k] == '\u{8}');
                }
                if t.contains('\u{8}') && c != '\u{8}' {
                    let k = choose|k: int| 0 <= k < t.len() && t[k] == '\u{8}';
                    assert(typed@.take(i as int)[k] == '\u{8}');
                }
            }
            i = i + 1;
        }
        proof {
            assert(typed@.take(typed@.len() as int) =~= typed@);
        }
        if backspace_key && !saw_backspace && v.len() > 0 {
            v.pop();
        }
        self.value = string_of(v.as_slice());
    }
}

} // verus!
