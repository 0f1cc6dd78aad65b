//! The client's decisions while a game screen is up: what keys and clicks
//! ask for, which requests may go out, who steers this tick, when a packet is
//! due, which sounds the session's cues call for and what the screen shows.

use vstd::prelude::*;

use crate::domain::{is_lobby_request_spec, Action};
use crate::screens::Click;
use crate::screens::ceil_div;
use crate::session::{
    can_change_bots_spec, can_request_start_spec, enqueue_spec, since, without, Cue, Phase,
    Request, Session,
};
use crate::settings::{set_address_spec, Settings, SettingsView};
use crate::sound::Sfx;
use crate::text::{chars_of, string_of, trim, trimmed};
use crate::world::FxEvent;

verus! {

/// The in-game menu's state.
#[derive(Debug, Clone, Copy, PartialEq, Eq, Structural)]
pub struct Overlay {
    pub menu_open: bool,
    /// Abort was clicked once and waits for a second click.
    pub confirm_abort: bool,
}

/// The keys pressed this frame that mean something in a game.
#[derive(Debug, Clone, Copy, PartialEq, Eq, Structural)]
pub struct Keys {
    pub escape: bool,
    /// B: the bot plays, or the player.
    pub toggle_bot: bool,
    /// M: sound on or off.
    pub toggle_sound: bool,
    /// Enter, on either keyboard block.
    pub start: bool,
    /// P.
    pub pause: bool,
}

/// What the keys of a frame lead to.
#[derive(Debug, Clone, Copy, PartialEq, Eq, Structural)]
pub enum KeyOutcome {
    /// Escape opened the menu: the rest of the frame is skipped.
    MenuOpened,
    Continue(Option<Click>),
}

pub open spec fn keys_spec(phase: Phase, paused: bool, o: Overlay, k: Keys) -> (KeyOutcome, Overlay) {
    let opens = k.escape && (phase == Phase::Playing || phase == Phase::MatchOver) && !o.menu_open;
    if opens {
        (KeyOutcome::MenuOpened, Overlay { menu_open: true, confirm_abort: false })
    } else {
        let c0: Option<Click> = if k.escape {
            if phase == Phase::Connecting || phase == Phase::Lost || phase == Phase::Lobby {
                Some(Click::Disconnect)
            } else {
                Some(Click::CloseMenu)
            }
        } else {
            None
        };
        let c1 = if k.toggle_bot {
            Some(Click::ToggleBot)
        } else {
            c0
        };
        let c2 = if k.toggle_sound {
            Some(Click::ToggleSound)
        } else {
            c1
        };
        let c3 = if o.menu_open {
            c2
        } else if (phase == Phase::Lobby || phase == Phase::MatchOver) && k.start {
            Some(Click::Start)
        } else if phase == Phase::Playing && k.pause {
            Some(
                if paused {
                    Click::Resume
                } else {
                    Click::Pause
                },
            )
        } else {
            c2
        };
        (KeyOutcome::Continue(c3), o)
    }
}

/// The keys of one frame in a game. A later key wins over an earlier one:
/// Escape, then B, then M, then Enter or P.
pub fn on_keys(phase: Phase, paused: bool, overlay: &mut Overlay, keys: Keys) -> (r: KeyOutcome)
    ensures
        (r, *final(overlay)) == keys_spec(phase, paused, *old(overlay), keys),
{
    let mut click: Option<Click> = None;
    if keys.escape {
        match phase {
            Phase::Connecting | Phase::Lost | Phase::Lobby => {
                click = Some(Click::Disconnect);
            },
            _ => {
                if overlay.menu_open {
                    click = Some(Click::CloseMenu);
                } else {
                    overlay.menu_open = true;
                    overlay.confirm_abort = false;
                    return KeyOutcome::MenuOpened;
                }
            },
        }
    }
    if keys.toggle_bot {
        click = Some(Click::ToggleBot);
    }
    if keys.toggle_sound {
        click = Some(Click::ToggleSound);
    }
    if !overlay.menu_open {
        match phase {
            Phase::Lobby | Phase::MatchOver => {
                if keys.start {
                    click = Some(Click::Start);
                }
            },
            Phase::Playing => {
                if keys.pause {
                    click = Some(
                        if paused {
                            Click::Resume
                        } else {
                            Click::Pause
                        },
                    );
                }
            },
            _ => {},
        }
    }
    KeyOutcome::Continue(click)
}

/// What a click on a game screen comes to, once the menu has had its say.
#[derive(Debug, Clone, Copy, PartialEq, Eq, Structural)]
pub enum Command {
    Nothing,
    Connect,
    ToggleBot,
    ToggleSound,
    Disconnect,
    /// A lobby request: Start, Pause, Resume or Abort.
    Request(Action),
    SeatBot { seat: u8, enabled: bool },
}

pub open spec fn click_spec(o: Overlay, c: Click) -> (Command, Overlay) {
    match c {
        Click::Connect => (Command::Connect, o),
        Click::ToggleBot => (Command::ToggleBot, o),
        Click::ToggleSound => (Command::ToggleSound, o),
        Click::Disconnect => (Command::Disconnect, o),
        Click::CloseMenu => (Command::Nothing, Overlay { menu_open: false, confirm_abort: false }),
        Click::SeatBot { seat, enabled } => (Command::SeatBot { seat, enabled }, o),
        Click::Start => (Command::Request(Action::Start), o),
        Click::Pause => (Command::Request(Action::Pause), o),
        Click::Resume => (Command::Request(Action::Resume), o),
        Click::Abort => if o.confirm_abort {
            (Command::Request(Action::Abort), Overlay { menu_open: false, confirm_abort: false })
        } else {
            (Command::Nothing, Overlay { confirm_abort: true, ..o })
        },
    }
}

/// A click on a game screen. Abort takes two clicks: the first only asks
/// for confirmation.
pub fn on_click(overlay: &mut Overlay, click: Click) -> (c: Command)
    ensures
        (c, *final(overlay)) == click_spec(*old(overlay), click),
{
    match click {
        Click::Connect => Command::Connect,
        Click::ToggleBot => Command::ToggleBot,
        Click::ToggleSound => Command::ToggleSound,
        Click::Disconnect => Command::Disconnect,
        Click::CloseMenu => {
            overlay.menu_open = false;
            overlay.confirm_abort = false;
            Command::Nothing
        },
        Click::SeatBot { seat, enabled } => Command::SeatBot { seat, enabled },
        Click::Start => Command::Request(Action::Start),
        Click::Pause => Command::Request(Action::Pause),
        Click::Resume => Command::Request(Action::Resume),
        Click::Abort => {
            if overlay.confirm_abort {
                overlay.confirm_abort = false;
                overlay.menu_open = false;
                Command::Request(Action::Abort)
            } else {
                overlay.confirm_abort = true;
                Command::Nothing
            }
        },
    }
}

/// Why a request was not sent; the player is told.
#[derive(Debug, Clone, Copy, PartialEq, Eq, Structural)]
pub enum Refusal {
    /// Only the moderation controls matches on this server.
    NoPlayerControl,
    /// Start is not possible right now.
    CannotStart,
    /// Bots cannot be changed right now.
    CannotChangeBots,
}

/// Sends a lobby request if the server lets players make it. Pause and
/// Resume also close the menu.
pub fn request(s: &mut Session, overlay: &mut Overlay, action: Action) -> (r: Result<(), Refusal>)
    requires
        is_lobby_request_spec(action),
        action != Action::SeatBot,
    ensures
        ({
            let l = old(s).lobby;
            let control = l matches Some(lb) && lb.details matches Some(d) && d.player_control;
            &&& !control ==> r == Err::<(), Refusal>(Refusal::NoPlayerControl)
            &&& control && action == Action::Start && !can_request_start_spec(l) ==> r == Err::<
                (),
                Refusal,
            >(Refusal::CannotStart)
            &&& r is Err ==> *final(s) == *old(s) && *final(overlay) == *old(overlay)
            &&& r is Ok ==> {
                &&& final(s).requests@ == enqueue_spec(old(s).requests@, Request::Match(action))
                &&& final(s).outbox == old(s).outbox
                &&& final(s).phase == old(s).phase
                &&& final(overlay).menu_open == (old(overlay).menu_open && action != Action::Pause
                    && action != Action::Resume)
                &&& final(overlay).confirm_abort == old(overlay).confirm_abort
            }
        }),
        r is Ok <==> (old(s).lobby matches Some(lb) && lb.details matches Some(d)
            && d.player_control) && (action != Action::Start || can_request_start_spec(
            old(s).lobby,
        )),
{
    if !s.player_control() {
        return Err(Refusal::NoPlayerControl);
    }
    if action == Action::Start && !s.can_request_start() {
        return Err(Refusal::CannotStart);
    }
    s.request(action);
    if action == Action::Pause || action == Action::Resume {
        overlay.menu_open = false;
    }
    Ok(())
}

/// Asks for a server bot on a seat, or for its removal, if bots may change.
pub fn request_seat_bot(s: &mut Session, seat: u8, enabled: bool) -> (r: Result<(), Refusal>)
    ensures
        r is Ok <==> can_change_bots_spec(old(s).lobby),
        r is Err ==> r == Err::<(), Refusal>(Refusal::CannotChangeBots) && *final(s) == *old(s),
        r is Ok ==> final(s).requests@ == enqueue_spec(
            without(old(s).requests@, Some(seat), None),
            Request::SeatBot { seat, enabled },
        ) && final(s).outbox == old(s).outbox && final(s).phase == old(s).phase,
{
    if !s.can_change_bots() {
        return Err(Refusal::CannotChangeBots);
    }
    s.request_seat_bot(seat, enabled);
    Ok(())
}

/// Who decides this tick's move.
#[derive(Debug, Clone, Copy, PartialEq, Eq, Structural)]
pub enum Steerer {
    Bot,
    Keys,
    /// Nothing to steer: send Idle.
    Nobody,
}

pub open spec fn steerer_spec(s: Session, bot_on: bool, menu_open: bool) -> Steerer {
    let playing = s.phase == Phase::Playing && !(s.lobby matches Some(l) && l.details matches Some(
        d,
    ) && d.paused);
    if s.world is Some && s.my_id is Some && playing && bot_on {
        Steerer::Bot
    } else if playing && !menu_open {
        Steerer::Keys
    } else {
        Steerer::Nobody
    }
}

/// The bot steers while a match runs, when it is switched on and there is a
/// world to look at; else the keys, unless the menu covers the board.
pub fn steerer(s: &Session, bot_on: bool, menu_open: bool) -> (r: Steerer)
    ensures
        r == steerer_spec(*s, bot_on, menu_open),
{
    let playing = s.phase == Phase::Playing && !s.paused();
    if s.world.is_some() && s.my_id.is_some() && playing && bot_on {
        Steerer::Bot
    } else if playing && !menu_open {
        Steerer::Keys
    } else {
        Steerer::Nobody
    }
}

/// The send cadence counts time in units of 1/60000 s: a tick is this many.
pub const TICK_UNITS: u64 = 1000;

/// A frame counts for at most 0.1 s, so a stall does not pile up ticks.
pub const MAX_FRAME_UNITS: u64 = 6000;

/// The time a frame counts for.
pub open spec fn frame_step(frame: u64) -> int {
    if frame < MAX_FRAME_UNITS {
        frame as int
    } else {
        MAX_FRAME_UNITS as int
    }
}

/// One frame of the send cadence, from the time owed before it: the time
/// owed after it, and whether a packet is due.
pub open spec fn pace_spec(owed: int, frame: u64) -> (int, bool) {
    let total = owed + frame_step(frame);
    if total >= TICK_UNITS {
        (
            if total - TICK_UNITS < TICK_UNITS {
                total - TICK_UNITS
            } else {
                TICK_UNITS as int
            },
            true,
        )
    } else {
        (total, false)
    }
}

/// One frame of the send cadence: at most one packet per frame and per
/// tick. The time owed after sending is capped at one tick: never a burst
/// to catch up, since the server keeps only the newest packet of a tick.
pub fn pace(owed: u64, frame: u64) -> (r: (u64, bool))
    requires
        owed <= u64::MAX - MAX_FRAME_UNITS,
    ensures
        (r.0 as int, r.1) == pace_spec(owed as int, frame),
{
    let step = if frame < MAX_FRAME_UNITS {
        frame
    } else {
        MAX_FRAME_UNITS
    };
    let total = owed + step;
    if total >= TICK_UNITS {
        let rest = total - TICK_UNITS;
        (
            if rest < TICK_UNITS {
                rest
            } else {
                TICK_UNITS
            },
            true,
        )
    } else {
        (total, false)
    }
}

/// The time owed after a run of frames.
pub open spec fn owed_after(owed: int, frames: Seq<u64>) -> int
    decreases frames.len(),
{
    if frames.len() == 0 {
        owed
    } else {
        pace_spec(owed_after(owed, frames.drop_last()), frames.last()).0
    }
}

/// How many packets a run of frames sends.
pub open spec fn packets_sent(owed: int, frames: Seq<u64>) -> int
    decreases frames.len(),
{
    if frames.len() == 0 {
        0
    } else {
        packets_sent(owed, frames.drop_last()) + if pace_spec(
            owed_after(owed, frames.drop_last()),
            frames.last(),
        ).1 {
            1int
        } else {
            0int
        }
    }
}

/// The time a run of frames counts for.
pub open spec fn counted_time(frames: Seq<u64>) -> int
    decreases frames.len(),
{
    if frames.len() == 0 {
        0
    } else {
        counted_time(frames.drop_last()) + frame_step(frames.last())
    }
}

/// The cadence never sends faster than the tick rate: over any run of frames,
/// starting with at most one tick owed, the packets sent are at most one
/// plus the number of whole ticks the frames count for, and the time owed
/// stays within one tick.
pub proof fn lemma_at_most_one_packet_per_tick(owed: int, frames: Seq<u64>)
    requires
        0 <= owed <= TICK_UNITS,
    ensures
        0 <= owed_after(owed, frames) <= TICK_UNITS,
        owed_after(owed, frames) + packets_sent(owed, frames) * TICK_UNITS <= owed + counted_time(
            frames,
        ),
        packets_sent(owed, frames) * TICK_UNITS <= TICK_UNITS + counted_time(frames),
    decreases frames.len(),
{
    if frames.len() > 0 {
        lemma_at_most_one_packet_per_tick(owed, frames.drop_last());
    }
}

/// A sound to play, at a volume in percent.
#[derive(Debug, Clone, Copy, PartialEq, Eq, Structural)]
pub struct SoundCall {
    pub sfx: Sfx,
    pub volume: u8,
}

/// Whether an explosion is among `cues`.
pub open spec fn has_explosion(cues: Seq<Cue>) -> bool {
    exists|k: int| 0 <= k < cues.len() && #[trigger] cues[k] matches Cue::Fx(FxEvent::Explosion { .. })
}

/// The sound of one cue; only the first explosion of a frame is heard, and
/// a pick-up is loud only for the local player.
pub open spec fn cue_sound(c: Cue, my_id: Option<u8>, exploded: bool) -> Option<SoundCall> {
    match c {
        Cue::Fx(e) => match e {
            FxEvent::Explosion { .. } => if exploded {
                None
            } else {
                Some(SoundCall { sfx: Sfx::Explosion, volume: 80 })
            },
            FxEvent::BombPlaced { .. } => Some(SoundCall { sfx: Sfx::BombPlaced, volume: 50 }),
            FxEvent::PowerupTaken { player, .. } => Some(
                SoundCall {
                    sfx: Sfx::Pickup,
                    volume: if my_id == Some(player) {
                        100
                    } else {
                        35
                    },
                },
            ),
            FxEvent::PlayerDied { .. } => Some(SoundCall { sfx: Sfx::Death, volume: 100 }),
            _ => None,
        },
        Cue::MatchStarted => Some(SoundCall { sfx: Sfx::Go, volume: 100 }),
        Cue::MatchEnded => Some(SoundCall { sfx: Sfx::Win, volume: 100 }),
        Cue::CountdownSecond(_) => Some(SoundCall { sfx: Sfx::Beep, volume: 100 }),
    }
}

pub open spec fn cue_sounds_spec(cues: Seq<Cue>, my_id: Option<u8>) -> Seq<SoundCall>
    decreases cues.len(),
{
    if cues.len() == 0 {
        Seq::empty()
    } else {
        let before = cues.drop_last();
        cue_sounds_spec(before, my_id) + match cue_sound(cues.last(), my_id, has_explosion(before)) {
            Some(call) => seq![call],
            None => Seq::empty(),
        }
    }
}

/// The sounds a frame's cues call for, in order.
pub fn cue_sounds(cues: &[Cue], my_id: Option<u8>) -> (r: Vec<SoundCall>)
    ensures
        r@ == cue_sounds_spec(cues@, my_id),
{
    let mut r: Vec<SoundCall> = Vec::new();
    let mut exploded = false;
    let mut i: usize = 0;
    while i < cues.len()
        invariant
            i <= cues@.len(),
            r@ == cue_sounds_spec(cues@.take(i as int), my_id),
            exploded == has_explosion(cues@.take(i as int)),
        decreases cues.len() - i,
    {
        let ghost before = cues@.take(i as int);
        let ghost now_seen = cues@.take(i as int + 1);
        proof {
            assert(now_seen.drop_last() =~= before);
            assert(now_seen.last() == cues@[i as int]);
        }
        let c = cues[i];
        let call: Option<SoundCall> = match c {
            Cue::Fx(e) => match e {
                FxEvent::Explosion { .. } => {
                    if exploded {
                        None
                    } else {
                        Some(SoundCall { sfx: Sfx::Explosion, volume: 80 })
                    }
                },
                FxEvent::BombPlaced { .. } => Some(SoundCall { sfx: Sfx::BombPlaced, volume: 50 }),
                FxEvent::PowerupTaken { player, .. } => {
                    let mine = match my_id {
                        Some(m) => m == player,
                        None => false,
                    };
                    Some(
                        SoundCall {
                            sfx: Sfx::Pickup,
                            volume: if mine {
                                100
                            } else {
                                35
                            },
                        },
                    )
                },
                FxEvent::PlayerDied { .. } => Some(SoundCall { sfx: Sfx::Death, volume: 100 }),
                _ => None,
            },
            Cue::MatchStarted => Some(SoundCall { sfx: Sfx::Go, volume: 100 }),
            Cue::MatchEnded => Some(SoundCall { sfx: Sfx::Win, volume: 100 }),
            Cue::CountdownSecond(_) => Some(SoundCall { sfx: Sfx::Beep, volume: 100 }),
        };
        match call {
            Some(x) => r.push(x),
            None => {},
        }
        let is_explosion = match c {
            Cue::Fx(FxEvent::Explosion { .. }) => true,
            _ => false,
        };
        proof {
            if is_explosion {
                assert(now_seen[i as int] == c);
            }
            if exploded {
                let k = choose|k: int|
                    0 <= k < before.len() && #[trigger] before[k] matches Cue::Fx(
                        FxEvent::Explosion { .. },
                    );
                assert(now_seen[k] == before[k]);
            }
            if has_explosion(now_seen) && !is_explosion {
                let k = choose|k: int|
                    0 <= k < now_seen.len() && #[trigger] now_seen[k] matches Cue::Fx(
                        FxEvent::Explosion { .. },
                    );
                assert(k < i);
                assert(before[k] == now_seen[k]);
            }
        }
        exploded = exploded || is_explosion;
        i = i + 1;
    }
    proof {
        assert(cues@.take(cues@.len() as int) =~= cues@);
    }
    r
}

// -- connecting --------------------------------------------------------------------

/// The name typed in the menu, without surrounding white space; `None`
/// when nothing else is left.
pub fn player_name(input: &str) -> (r: Option<String>)
    ensures
        match r {
            Some(n) => n@ == trim(input@) && n@.len() > 0,
            None => trim(input@).len() == 0,
        },
{
    let all = chars_of(input);
    let t = trimmed(&all, 0, all.len());
    assert(all@.subrange(0, all@.len() as int) =~= input@);
    if t.len() == 0 {
        None
    } else {
        Some(string_of(&t))
    }
}

/// Connecting needs a name.
#[derive(Debug, Clone, Copy, PartialEq, Eq, Structural)]
pub enum ConnectError {
    NameMissing,
}

/// The menu's fields as the settings to connect with: the trimmed name,
/// the address and the bot switch. Without a name nothing changes.
pub fn prepare_connect(settings: &mut Settings, name_field: &str, address_field: &str, bot: bool) -> (r: Result<String, ConnectError>)
    ensures
        match r {
            Ok(name) => {
                &&& name@ == trim(name_field@) && name@.len() > 0
                &&& final(settings)@ == set_address_spec(
                    SettingsView { name: name@, bot, ..old(settings)@ },
                    address_field@,
                )
            },
            Err(e) => {
                &&& e == ConnectError::NameMissing
                &&& trim(name_field@).len() == 0
                &&& final(settings)@ == old(settings)@
            },
        },
{
    let name = match player_name(name_field) {
        Some(n) => n,
        None => return Err(ConnectError::NameMissing),
    };
    settings.name = name.clone();
    settings.bot = bot;
    settings.set_address(address_field);
    Ok(name)
}

/// The menu starts in the name field while it is empty, else in the
/// address field.
pub fn first_focus(name: &str) -> (f: usize)
    ensures
        f == if name@.len() == 0 {
            0usize
        } else {
            1usize
        },
{
    if name.is_empty() {
        0
    } else {
        1
    }
}

/// Tab moves between the two fields.
pub fn next_focus(f: usize) -> (g: usize)
    ensures
        g == (f + 1) % 2,
{
    if f % 2 == 0 {
        1
    } else {
        0
    }
}

// -- what a game screen shows ------------------------------------------------------

/// Without an answer for this long, the connecting screen lists likely causes.
pub const SLOW_CONNECT_MS: u64 = 4000;

/// What covers the board.
#[derive(Debug, Clone, Copy, PartialEq, Eq, Structural)]
pub enum BoardOverlay {
    Nothing,
    Pause,
    Results,
}

/// The screen of a game, chosen from the session's phase.
#[derive(Debug, Clone, Copy, PartialEq, Eq, Structural)]
pub enum GameScreen {
    Connecting { slow: bool },
    Lost,
    Lobby,
    Board { overlay: BoardOverlay },
    /// Joined after the match: results without a board beneath.
    ResultsOnly,
    /// A match without a world yet.
    WaitingForBoard,
}

pub open spec fn game_screen_spec(s: Session, menu_open: bool, now: u64) -> GameScreen {
    let paused = s.lobby matches Some(l) && l.details matches Some(d) && d.paused;
    match s.phase {
        Phase::Connecting => GameScreen::Connecting { slow: since(now, s.started_at) > SLOW_CONNECT_MS },
        Phase::Lost => GameScreen::Lost,
        Phase::Lobby => GameScreen::Lobby,
        _ => if s.world is Some {
            GameScreen::Board {
                overlay: if menu_open {
                    BoardOverlay::Nothing
                } else if s.phase == Phase::Playing && paused {
                    BoardOverlay::Pause
                } else if s.phase == Phase::MatchOver {
                    BoardOverlay::Results
                } else {
                    BoardOverlay::Nothing
                },
            }
        } else if s.phase == Phase::MatchOver && !menu_open {
            GameScreen::ResultsOnly
        } else {
            GameScreen::WaitingForBoard
        },
    }
}

/// The game screen for this frame; the in-game menu, when open, is drawn
/// over a board screen.
pub fn game_screen(s: &Session, menu_open: bool, now: u64) -> (g: GameScreen)
    ensures
        g == game_screen_spec(*s, menu_open, now),
{
    match s.phase {
        Phase::Connecting => {
            let waited = now as i128 - s.started_at as i128;
            GameScreen::Connecting { slow: waited > SLOW_CONNECT_MS as i128 }
        },
        Phase::Lost => GameScreen::Lost,
        Phase::Lobby => GameScreen::Lobby,
        _ => {
            if s.world.is_some() {
                let overlay = if menu_open {
                    BoardOverlay::Nothing
                } else if s.phase == Phase::Playing && s.paused() {
                    BoardOverlay::Pause
                } else if s.phase == Phase::MatchOver {
                    BoardOverlay::Results
                } else {
                    BoardOverlay::Nothing
                };
                GameScreen::Board { overlay }
            } else if s.phase == Phase::MatchOver && !menu_open {
                GameScreen::ResultsOnly
            } else {
                GameScreen::WaitingForBoard
            }
        },
    }
}

/// The countdown's whole seconds, rounded up, whose changes drive the
/// number's pop-in; `None` outside a lobby.
pub fn countdown_value(s: &Session) -> (v: Option<u16>)
    ensures
        v == match s.lobby {
            Some(l) => Some(ceil_div(l.countdown_ticks as int, 60) as u16),
            None => None,
        },
{
    match &s.lobby {
        Some(l) => Some(((l.countdown_ticks as u32 + 59) / 60) as u16),
        None => None,
    }
}

/// With autostart, results stay up this long before the next match.
pub const AUTOSTART_RESULT_MS: u64 = 6000;

/// And autostart asks at most this often.
pub const AUTOSTART_GAP_MS: u64 = 2000;

/// Unattended rounds: Start is asked for whenever it is possible, nothing
/// else was clicked, the last try is a while back and the results, if any,
/// have been up long enough.
pub fn autostart_due(s: &Session, autostart: bool, clicked: bool, now: u64, last_try: u64, result_at: Option<u64>) -> (due: bool)
    ensures
        due == (autostart && !clicked && since(now, last_try) > AUTOSTART_GAP_MS && can_request_start_spec(
            s.lobby,
        ) && match result_at {
            None => true,
            Some(t) => since(now, t) > AUTOSTART_RESULT_MS,
        }),
{
    if !autostart || clicked || now as i128 - last_try as i128 <= AUTOSTART_GAP_MS as i128 {
        return false;
    }
    let results_read = match result_at {
        None => true,
        Some(t) => now as i128 - t as i128 > AUTOSTART_RESULT_MS as i128,
    };
    s.can_request_start() && results_read
}

/// When the results arrived: kept once known, else now if the match is over.
pub fn results_shown_at(s: &Session, result_at: Option<u64>, now: u64) -> (r: Option<u64>)
    ensures
        r == if result_at is None && s.phase == Phase::MatchOver {
            Some(now)
        } else {
            result_at
        },
{
    if result_at.is_none() && s.phase == Phase::MatchOver {
        Some(now)
    } else {
        result_at
    }
}

/// Confetti goes off once, in the first moments of the results, for a winner
/// on a board.
pub const CELEBRATION_MS: u64 = 50;

pub fn celebration(s: &Session, result_at: Option<u64>, now: u64) -> (winner: Option<u8>)
    ensures
        winner == if (s.result matches Some(end) && end.winner is Some) && s.world is Some
            && (result_at matches Some(t) && since(now, t) < CELEBRATION_MS) {
            s.result.unwrap().winner
        } else {
            None
        },
{
    let fresh = match result_at {
        Some(t) => (now as i128 - t as i128) < CELEBRATION_MS as i128,
        None => false,
    };
    if !fresh || s.world.is_none() {
        return None;
    }
    match &s.result {
        Some(end) => end.winner,
        None => None,
    }
}

} // verus!
