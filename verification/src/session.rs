//! One connection to the arena: joining, following the lobby, tracking the
//! match, and deciding what goes up the wire each tick.
//!
//! A keyframe is always trusted, a delta only when we hold exactly its base
//! tick, and anything else waits for the next keyframe. There is no resync to
//! ask for.
//!
//! The session decides; it does not send. Every datagram it wants sent is
//! appended to its outbox, which the caller drains onto the socket. Wall time
//! is in milliseconds.

use std::collections::VecDeque;

use vstd::prelude::*;

use crate::domain::{action_code, is_lobby_request_spec, Action, LobbyState, Rules};
use crate::frames::{frame_ok, MatchEnd, MatchInit, ServerFrame, TICK_RATE};
use crate::lobby_status::{LobbyDetails, LobbyStatus};
use crate::world::{apply_delta, keyframe_world, world_wf, FxEvent, World};

verus! {

/// Resend the hello this often until a seat is assigned.
pub const HELLO_INTERVAL_MS: u64 = 500;

/// No frame for this long means the server is gone.
pub const LOST_AFTER_MS: u64 = 3000;

/// While lost, knock again this often -- the server may simply have restarted.
pub const REJOIN_INTERVAL_MS: u64 = 1000;

/// Running, but no usable state for this long: ask for the match again.
pub const NO_STATE_REHELLO_MS: u64 = 1000;

/// Idle heartbeat, so the lobby can tell a quiet player from a crashed one.
pub const HEARTBEAT_MS: u64 = 500;

/// Each lobby request goes out this many times on consecutive ticks. All four
/// requests are idempotent on the server, and every copy has a fresh sequence
/// number, so this only buys delivery.
pub const REQUEST_COPIES: usize = 3;

#[derive(Debug, Clone, Copy, PartialEq, Eq, Structural)]
pub enum Phase {
    /// Hello sent, no seat yet.
    Connecting,
    Lobby,
    Playing,
    MatchOver,
    /// Nothing heard for a while.
    Lost,
}

/// A lobby request waiting to go out.
#[derive(Debug, Clone, Copy, PartialEq, Eq, Structural)]
pub enum Request {
    /// Start, Pause, Resume or Abort.
    Match(Action),
    /// Fill a seat with a server bot, or remove it.
    SeatBot { seat: u8, enabled: bool },
}

/// Something the presentation layer should react to once.
#[derive(Debug, Clone, Copy, PartialEq, Eq, Structural)]
pub enum Cue {
    Fx(FxEvent),
    MatchStarted,
    MatchEnded,
    /// The start countdown crossed into a new second (3, 2, 1).
    CountdownSecond(u32),
}

/// A datagram the session wants sent.
#[derive(Debug, Clone, Copy, PartialEq, Eq, Structural)]
pub enum Outgoing {
    /// The hello, with the session's name.
    Hello,
    /// One tick's action for our seat.
    Action { player: u8, action: Action },
    /// A server bot in `seat`, or none.
    SeatBot { player: u8, seat: u8, enabled: bool },
}

pub struct Session {
    pub name: String,
    pub phase: Phase,
    pub my_id: Option<u8>,
    pub lobby: Option<LobbyStatus>,
    pub init: Option<MatchInit>,
    pub world: Option<World>,
    pub at_tick: Option<u32>,
    pub result: Option<MatchEnd>,
    pub cues: Vec<Cue>,
    /// Datagrams decided on and not yet sent.
    pub outbox: Vec<Outgoing>,
    pub started_at: u64,
    pub last_frame: Option<u64>,
    pub last_hello: u64,
    pub last_sent: u64,
    /// Wall time the current world state arrived, for sub-tick smoothing.
    pub state_time: u64,
    pub running_without_state_since: Option<u64>,
    pub requests: VecDeque<Request>,
    pub last_countdown_second: Option<u32>,
}

/// The world held, if any, is well-formed.
pub open spec fn session_wf(s: Session) -> bool {
    s.world matches Some(w) ==> world_wf(w@)
}

/// The phase after hearing from the server again.
pub open spec fn heard_phase(phase: Phase, my_id: Option<u8>) -> Phase {
    if phase == Phase::Lost {
        if my_id is Some {
            Phase::Lobby
        } else {
            Phase::Connecting
        }
    } else {
        phase
    }
}

/// Seconds left on the countdown, rounded up.
pub open spec fn countdown_second(ticks: u16) -> u32 {
    ((ticks as int + TICK_RATE as int - 1) / TICK_RATE as int) as u32
}

/// A request for `seat`, when a seat is given; else a request equal to
/// `same`.
pub open spec fn drops(x: Request, seat: Option<u8>, same: Option<Request>) -> bool {
    match seat {
        Some(st) => same_seat(x, st),
        None => same == Some(x),
    }
}

/// The requests that `drops` does not mark, in order.
pub open spec fn without(rs: Seq<Request>, seat: Option<u8>, same: Option<Request>) -> Seq<Request>
    decreases rs.len(),
{
    if rs.len() == 0 {
        Seq::empty()
    } else {
        without(rs.drop_last(), seat, same) + if drops(rs.last(), seat, same) {
            Seq::<Request>::empty()
        } else {
            seq![rs.last()]
        }
    }
}

/// A request queued: earlier copies of it dropped, then three copies at the
/// back.
pub open spec fn enqueue_spec(rs: Seq<Request>, r: Request) -> Seq<Request> {
    without(rs, None, Some(r)) + seq![r, r, r]
}

pub open spec fn same_seat(r: Request, seat: u8) -> bool {
    r matches Request::SeatBot { seat: s, .. } && s == seat
}

pub open spec fn can_request_start_spec(lobby: Option<LobbyStatus>) -> bool {
    match lobby {
        None => false,
        Some(l) => match l.details {
            None => false,
            Some(d) => if !d.player_control || d.paused {
                false
            } else {
                match l.state {
                    LobbyState::Open | LobbyState::Locked => d.can_start,
                    LobbyState::MatchOver => l.players_connected >= d.min_players,
                    _ => false,
                }
            },
        },
    }
}

pub open spec fn can_change_bots_spec(lobby: Option<LobbyStatus>) -> bool {
    match lobby {
        None => false,
        Some(l) => match l.details {
            None => false,
            Some(d) => d.server_bots && d.player_control && !d.paused && (l.state == LobbyState::Open
                || l.state == LobbyState::MatchOver),
        },
    }
}

/// Drops every request `drop` marks; the others keep their order.
fn drop_requests(rs: &mut VecDeque<Request>, seat: Option<u8>, same: Option<Request>)
    requires
        seat is Some || same is Some,
    ensures
        final(rs)@ == without(old(rs)@, seat, same),
{
    let mut kept: VecDeque<Request> = VecDeque::new();
    let mut i: usize = 0;
    while i < rs.len()
        invariant
            i <= rs@.len(),
            seat is Some || same is Some,
            kept@ == without(rs@.take(i as int), seat, same),
        decreases rs.len() - i,
    {
        proof {
            assert(rs@.take(i as int + 1).drop_last() =~= rs@.take(i as int));
        }
        let r = rs[i];
        let hit = match seat {
            Some(st) => match r {
                Request::SeatBot { seat: s, .. } => s == st,
                _ => false,
            },
            None => {
                let other = same.unwrap();
                match (r, other) {
                    (Request::Match(a), Request::Match(b)) => a == b,
                    (
                        Request::SeatBot { seat: s1, enabled: e1 },
                        Request::SeatBot { seat: s2, enabled: e2 },
                    ) => s1 == s2 && e1 == e2,
                    _ => false,
                }
            },
        };
        if !hit {
            kept.push_back(r);
        }
        proof {
            assert(rs@.take(i as int + 1).last() == r);
            assert(kept@ =~= without(rs@.take(i as int + 1), seat, same));
        }
        i = i + 1;
    }
    proof {
        assert(rs@.take(rs@.len() as int) =~= rs@);
    }
    *rs = kept;
}

impl Session {
    /// A session that has just said hello.
    pub fn new(name: String, now: u64) -> (s: Session)
        ensures
            s.name == name,
            s.phase == Phase::Connecting,
            s.my_id is None,
            s.lobby is None,
            s.init is None,
            s.world is None,
            s.at_tick is None,
            s.result is None,
            s.cues@.len() == 0,
            s.outbox@ == seq![Outgoing::Hello],
            s.started_at == now,
            s.last_frame is None,
            s.last_hello == now,
            s.last_sent == now,
            s.state_time == now,
            s.running_without_state_since is None,
            s.requests@.len() == 0,
            s.last_countdown_second is None,
            session_wf(s),
    {
        let mut outbox: Vec<Outgoing> = Vec::new();
        outbox.push(Outgoing::Hello);
        Session {
            name,
            phase: Phase::Connecting,
            my_id: None,
            lobby: None,
            init: None,
            world: None,
            at_tick: None,
            result: None,
            cues: Vec::new(),
            outbox,
            started_at: now,
            last_frame: None,
            last_hello: now,
            last_sent: now,
            state_time: now,
            running_without_state_since: None,
            requests: VecDeque::new(),
            last_countdown_second: None,
        }
    }

    /// The rules of the match, or the defaults before one is announced.
    pub fn rules(&self) -> (r: Rules)
        ensures
            self.init matches Some(i) ==> r == i.rules,
            self.init is None ==> r.round_time_ticks == 10800 && r.sudden_death_tick == 7200
                && r.bomb_fuse_ticks == 120 && r.flame_duration_ticks == 30 && r.max_flame == 8
                && r.base_ticks_per_cell == 8 && r.min_ticks_per_cell == 4,
    {
        match &self.init {
            Some(i) => i.rules,
            None => Rules::default(),
        }
    }

    pub fn paused(&self) -> (r: bool)
        ensures
            r == (self.lobby matches Some(l) && l.details matches Some(d) && d.paused),
    {
        match &self.lobby {
            Some(l) => match &l.details {
                Some(d) => d.paused,
                None => false,
            },
            None => false,
        }
    }

    pub fn lobby_state(&self) -> (r: Option<LobbyState>)
        ensures
            r == match self.lobby {
                Some(l) => Some(l.state),
                None => None,
            },
    {
        match &self.lobby {
            Some(l) => Some(l.state),
            None => None,
        }
    }

    /// The name shown for a seat. Falls back to the server's default,
    /// `bot-` and the seat number.
    pub fn name_of(&self, id: u8) -> (r: String)
        ensures
            ({
                let known = self.lobby matches Some(l) && l.details matches Some(d) && (id as int) < d.seats@.len();
                &&& known ==> r@ == self.lobby.unwrap().details.unwrap().seats@[id as int].name@
                &&& !known ==> r@ == seq!['b', 'o', 't', '-'] + crate::text::decimal(id as nat)
            }),
    {
        match &self.lobby {
            Some(l) => match &l.details {
                Some(d) => {
                    if (id as usize) < d.seats.len() {
                        return d.seats[id as usize].name.clone();
                    }
                },
                None => {},
            },
            None => {},
        }
        let mut s = crate::text::string_lit(['b', 'o', 't', '-']);
        let digits = crate::text::decimal_of(id as u16);
        crate::text::push_all(&mut s, digits.as_slice());
        s
    }

    pub fn player_control(&self) -> (r: bool)
        ensures
            r == (self.lobby matches Some(l) && l.details matches Some(d) && d.player_control),
    {
        match &self.lobby {
            Some(l) => match &l.details {
                Some(d) => d.player_control,
                None => false,
            },
            None => false,
        }
    }

    /// Whether the local player may press Start right now, as far as the
    /// server has told us. Start on the results screen means "next match".
    pub fn can_request_start(&self) -> (r: bool)
        ensures
            r == can_request_start_spec(self.lobby),
    {
        let lobby = match &self.lobby {
            Some(l) => l,
            None => return false,
        };
        let details = match &lobby.details {
            Some(d) => d,
            None => return false,
        };
        if !details.player_control || details.paused {
            return false;
        }
        match lobby.state {
            LobbyState::Open | LobbyState::Locked => details.can_start,
            LobbyState::MatchOver => lobby.players_connected >= details.min_players,
            _ => false,
        }
    }

    /// Whether the local player may switch server bots on seats right now.
    pub fn can_change_bots(&self) -> (r: bool)
        ensures
            r == can_change_bots_spec(self.lobby),
    {
        let lobby = match &self.lobby {
            Some(l) => l,
            None => return false,
        };
        let details = match &lobby.details {
            Some(d) => d,
            None => return false,
        };
        details.server_bots && details.player_control && !details.paused && (lobby.state
            == LobbyState::Open || lobby.state == LobbyState::MatchOver)
    }

    fn hello(&mut self, now: u64)
        ensures
            final(self).outbox@ == old(self).outbox@.push(Outgoing::Hello),
            final(self).last_hello == now,
            final(self).name == old(self).name,
            final(self).phase == old(self).phase,
            final(self).my_id == old(self).my_id,
            final(self).lobby == old(self).lobby,
            final(self).init == old(self).init,
            final(self).world == old(self).world,
            final(self).at_tick == old(self).at_tick,
            final(self).result == old(self).result,
            final(self).cues == old(self).cues,
            final(self).started_at == old(self).started_at,
            final(self).last_frame == old(self).last_frame,
            final(self).last_sent == old(self).last_sent,
            final(self).state_time == old(self).state_time,
            final(self).running_without_state_since == old(self).running_without_state_since,
            final(self).requests == old(self).requests,
            final(self).last_countdown_second == old(self).last_countdown_second,
    {
        self.outbox.push(Outgoing::Hello);
        self.last_hello = now;
    }
}


/// Milliseconds from `then` to `now`, negative if the clock went back.
pub open spec fn since(now: u64, then: u64) -> int {
    now as int - then as int
}

fn elapsed(now: u64, then: u64) -> (r: i128)
    ensures
        r == since(now, then),
{
    now as i128 - then as i128
}

/// The fields a frame leaves alone, compared between two sessions.
pub open spec fn same_links(a: Session, b: Session) -> bool {
    &&& a.name == b.name
    &&& a.outbox == b.outbox
    &&& a.started_at == b.started_at
    &&& a.last_hello == b.last_hello
    &&& a.last_sent == b.last_sent
    &&& a.running_without_state_since == b.running_without_state_since
    &&& a.requests == b.requests
}

/// Each effect becomes a cue, in order.
fn push_fx(cues: &mut Vec<Cue>, fx: &Vec<FxEvent>)
    ensures
        final(cues)@ == old(cues)@ + fx@.map_values(|e: FxEvent| Cue::Fx(e)),
{
    let ghost before = cues@;
    let mut i: usize = 0;
    while i < fx.len()
        invariant
            i <= fx@.len(),
            cues@ == before + fx@.take(i as int).map_values(|e: FxEvent| Cue::Fx(e)),
        decreases fx.len() - i,
    {
        cues.push(Cue::Fx(fx[i]));
        proof {
            assert(cues@ =~= before + fx@.take(i as int + 1).map_values(|e: FxEvent| Cue::Fx(e)));
        }
        i = i + 1;
    }
    proof {
        assert(fx@.take(fx@.len() as int) =~= fx@);
    }
}

/// What a lobby status does to a session `s0` whose phase, once the frame
/// was heard, is `phase0`: back in the lobby (world, tick and result
/// cleared, a cue for each new countdown second), playing a match that runs,
/// or on the results once it is over, with a cue when a match being played
/// ended without its match end.
pub open spec fn lobby_step(phase0: Phase, s0: Session, status: LobbyStatus, s1: Session) -> bool {
    &&& s1.lobby == Some(status)
    &&& s1.my_id == s0.my_id
    &&& s1.init == s0.init
    &&& s1.state_time == s0.state_time
    &&& match status.state {
                LobbyState::Open | LobbyState::Locked | LobbyState::Countdown => {
                    let second = countdown_second(status.countdown_ticks);
                    &&& s1.phase == Phase::Lobby
                    &&& s1.world is None
                    &&& s1.at_tick is None
                    &&& s1.result is None
                    &&& status.state == LobbyState::Countdown ==> {
                        &&& s1.cues@ == if second > 0 && s0.last_countdown_second
                            != Some(second) {
                            s0.cues@.push(Cue::CountdownSecond(second))
                        } else {
                            s0.cues@
                        }
                        &&& s1.last_countdown_second == Some(second)
                    }
                    &&& status.state != LobbyState::Countdown ==> s1.cues == s0.cues
                        && s1.last_countdown_second is None
                },
                LobbyState::Running => {
                    &&& s1.last_countdown_second is None
                    &&& s1.phase == if phase0 != Phase::MatchOver && s0.init is Some {
                        Phase::Playing
                    } else {
                        phase0
                    }
                    &&& s1.world == s0.world
                    &&& s1.at_tick == s0.at_tick
                    &&& s1.result == s0.result
                    &&& s1.cues == s0.cues
                },
                LobbyState::MatchOver => {
                    &&& s1.phase == Phase::MatchOver
                    &&& s1.cues@ == if phase0 == Phase::Playing && s0.result is None {
                        s0.cues@.push(Cue::MatchEnded)
                    } else {
                        s0.cues@
                    }
                    &&& s1.world == s0.world
                    &&& s1.at_tick == s0.at_tick
                    &&& s1.result == s0.result
                    &&& s1.last_countdown_second == s0.last_countdown_second
                },
            }
}

impl Session {
    fn on_lobby(&mut self, status: LobbyStatus)
        requires
            session_wf(*old(self)),
        ensures
            session_wf(*final(self)),
            same_links(*final(self), *old(self)),
            final(self).lobby == Some(status),
            final(self).my_id == old(self).my_id,
            final(self).init == old(self).init,
            final(self).last_frame == old(self).last_frame,
            final(self).state_time == old(self).state_time,
            lobby_step(old(self).phase, *old(self), status, *final(self)),
    {
        match status.state {
            LobbyState::Open | LobbyState::Locked | LobbyState::Countdown => {
                self.phase = Phase::Lobby;
                self.world = None;
                self.at_tick = None;
                self.result = None;
                if status.state == LobbyState::Countdown {
                    let second: u32 = ((status.countdown_ticks as u32) + TICK_RATE - 1) / TICK_RATE;
                    let repeated = match self.last_countdown_second {
                        Some(s) => s == second,
                        None => false,
                    };
                    if second > 0 && !repeated {
                        self.cues.push(Cue::CountdownSecond(second));
                    }
                    self.last_countdown_second = Some(second);
                } else {
                    self.last_countdown_second = None;
                }
            },
            LobbyState::Running => {
                self.last_countdown_second = None;
                if self.phase != Phase::MatchOver && self.init.is_some() {
                    self.phase = Phase::Playing;
                }
            },
            LobbyState::MatchOver => {
                // Also covers an abort from an older server, which sends no
                // match end: the lobby state is then the only word we get.
                if self.phase == Phase::Playing && self.result.is_none() {
                    self.cues.push(Cue::MatchEnded);
                }
                self.phase = Phase::MatchOver;
            },
        }
        self.lobby = Some(status);
    }

    /// Takes in one frame from the server, heard at `now`.
    pub fn on_frame(&mut self, frame: ServerFrame, now: u64)
        requires
            session_wf(*old(self)),
            frame_ok(frame),
        ensures
            session_wf(*final(self)),
            same_links(*final(self), *old(self)),
            final(self).last_frame == Some(now),
            ({
                let phase0 = heard_phase(old(self).phase, old(self).my_id);
                match frame {
                    ServerFrame::Assigned(a) => {
                        &&& final(self).my_id == Some(a.player_id)
                        &&& final(self).phase == if phase0 == Phase::Connecting {
                            Phase::Lobby
                        } else {
                            phase0
                        }
                        &&& final(self).lobby == old(self).lobby
                        &&& final(self).init == old(self).init
                        &&& final(self).world == old(self).world
                        &&& final(self).at_tick == old(self).at_tick
                        &&& final(self).result == old(self).result
                        &&& final(self).cues == old(self).cues
                        &&& final(self).last_countdown_second == old(self).last_countdown_second
                        &&& final(self).state_time == old(self).state_time
                    },
                    ServerFrame::LobbyStatus(status) => lobby_step(phase0, *old(self), status, *final(self)),
                    ServerFrame::MatchInit(init) => {
                        let repeat = (old(self).init matches Some(o) && o.match_id == init.match_id)
                            && old(self).world is Some;
                        &&& final(self).my_id == Some(init.your_player_id)
                        &&& final(self).init == Some(init)
                        &&& final(self).phase == Phase::Playing
                        &&& final(self).lobby == old(self).lobby
                        &&& final(self).last_countdown_second == old(self).last_countdown_second
                        &&& final(self).state_time == old(self).state_time
                        &&& repeat ==> final(self).world == old(self).world && final(self).at_tick
                            == old(self).at_tick && final(self).cues == old(self).cues
                            && final(self).result == old(self).result
                        &&& !repeat ==> final(self).world is None && final(self).at_tick is None
                            && final(self).result is None && final(self).cues@ == old(self).cues@.push(
                            Cue::MatchStarted,
                        )
                    },
                    ServerFrame::Keyframe(k) => {
                        let ignored = old(self).init is None || (old(self).at_tick matches Some(t)
                            && k.tick < t);
                        &&& final(self).my_id == old(self).my_id
                        &&& final(self).lobby == old(self).lobby
                        &&& final(self).init == old(self).init
                        &&& final(self).result == old(self).result
                        &&& final(self).last_countdown_second == old(self).last_countdown_second
                        &&& ignored ==> final(self).state_time == old(self).state_time
                        &&& ignored ==> final(self).world == old(self).world && final(self).at_tick
                            == old(self).at_tick && final(self).phase == phase0
                        &&& !ignored ==> (final(self).world matches Some(w) && w@ == keyframe_world(k))
                        &&& !ignored ==> final(self).at_tick == Some(k.tick) && final(self).state_time == now
                            && final(self).phase == if phase0 != Phase::MatchOver {
                            Phase::Playing
                        } else {
                            phase0
                        }
                        &&& final(self).cues == old(self).cues
                    },
                    ServerFrame::Delta(d) => {
                        let on_base = old(self).world is Some && old(self).at_tick == Some(d.base_tick);
                        &&& final(self).phase == phase0
                        &&& final(self).my_id == old(self).my_id
                        &&& final(self).lobby == old(self).lobby
                        &&& final(self).init == old(self).init
                        &&& final(self).result == old(self).result
                        &&& final(self).last_countdown_second == old(self).last_countdown_second
                        &&& !on_base ==> final(self).state_time == old(self).state_time
                        &&& !on_base ==> final(self).world == old(self).world && final(self).at_tick
                            == old(self).at_tick && final(self).cues == old(self).cues
                        &&& on_base ==> {
                            let (w2, fx) = apply_delta(old(self).world.unwrap()@, d.tick, d.records@);
                            &&& (final(self).world matches Some(w) && w@ == w2)
                            &&& final(self).at_tick == Some(d.tick)
                            &&& final(self).state_time == now
                            &&& final(self).cues@ == old(self).cues@ + fx.map_values(|e: FxEvent| Cue::Fx(e))
                        }
                    },
                    ServerFrame::MatchEnd(end) => {
                        &&& final(self).result == Some(end)
                        &&& final(self).phase == Phase::MatchOver
                        &&& final(self).cues@ == if old(self).result is None {
                            old(self).cues@.push(Cue::MatchEnded)
                        } else {
                            old(self).cues@
                        }
                        &&& final(self).world == old(self).world
                        &&& final(self).at_tick == old(self).at_tick
                        &&& final(self).my_id == old(self).my_id
                        &&& final(self).lobby == old(self).lobby
                        &&& final(self).init == old(self).init
                        &&& final(self).last_countdown_second == old(self).last_countdown_second
                        &&& final(self).state_time == old(self).state_time
                    },
                }
            }),
    {
        self.last_frame = Some(now);
        if self.phase == Phase::Lost {
            // Heard from again; the lobby status will say where we are.
            self.phase = if self.my_id.is_some() {
                Phase::Lobby
            } else {
                Phase::Connecting
            };
        }
        match frame {
            ServerFrame::Assigned(assigned) => {
                self.my_id = Some(assigned.player_id);
                if self.phase == Phase::Connecting {
                    self.phase = Phase::Lobby;
                }
            },
            ServerFrame::LobbyStatus(status) => self.on_lobby(status),
            ServerFrame::MatchInit(init) => {
                let repeat = match &self.init {
                    Some(old) => old.match_id == init.match_id,
                    None => false,
                } && self.world.is_some();
                self.my_id = Some(init.your_player_id);
                if !repeat {
                    // A new match. The announcement is repeated on five ticks;
                    // a repeat of the same one must not wipe a state we hold.
                    self.world = None;
                    self.at_tick = None;
                    self.result = None;
                    self.cues.push(Cue::MatchStarted);
                }
                self.init = Some(init);
                self.phase = Phase::Playing;
            },
            ServerFrame::Keyframe(keyframe) => {
                if self.init.is_none() {
                    return;
                }
                // A reordered keyframe from the past must not rewind us.
                match self.at_tick {
                    Some(t) => {
                        if keyframe.tick < t {
                            return;
                        }
                    },
                    None => {},
                }
                self.world = Some(World::from_keyframe(&keyframe));
                self.at_tick = Some(keyframe.tick);
                self.state_time = now;
                if self.phase != Phase::MatchOver {
                    self.phase = Phase::Playing;
                }
            },
            ServerFrame::Delta(delta) => {
                let on_base = match self.at_tick {
                    Some(t) => t == delta.base_tick,
                    None => false,
                };
                if self.world.is_none() || !on_base {
                    // A gap: wait for the next keyframe.
                    return;
                }
                let mut world = self.world.take().unwrap();
                let mut fx: Vec<FxEvent> = Vec::new();
                world.apply(delta.tick, delta.records.as_slice(), &mut fx);
                push_fx(&mut self.cues, &fx);
                self.world = Some(world);
                self.at_tick = Some(delta.tick);
                self.state_time = now;
            },
            ServerFrame::MatchEnd(end) => {
                if self.result.is_none() {
                    self.cues.push(Cue::MatchEnded);
                }
                self.result = Some(end);
                self.phase = Phase::MatchOver;
            },
        }
    }
}


/// Nothing heard for longer than the loss timeout.
pub open spec fn silent(s: Session, now: u64) -> bool {
    s.last_frame matches Some(t) && since(now, t) > LOST_AFTER_MS
}

/// The timers want a hello now.
pub open spec fn timer_hello(s: Session, now: u64) -> bool {
    match s.phase {
        Phase::Connecting => since(now, s.last_hello) >= HELLO_INTERVAL_MS,
        Phase::Lost => since(now, s.last_hello) >= REJOIN_INTERVAL_MS,
        _ => silent(s, now),
    }
}

/// The lobby runs a match but we hold no state of it.
pub open spec fn running_blind(s: Session) -> bool {
    (s.lobby matches Some(l) && l.state == LobbyState::Running) && s.world is None
}

/// Three copies of `r` at the back of the queue.
fn push_copies(rs: &mut VecDeque<Request>, r: Request)
    ensures
        final(rs)@ == old(rs)@ + seq![r, r, r],
{
    let ghost kept = rs@;
    let mut k: usize = 0;
    while k < REQUEST_COPIES
        invariant
            k <= REQUEST_COPIES,
            rs@ == kept + Seq::new(k as nat, |i: int| r),
        decreases REQUEST_COPIES - k,
    {
        rs.push_back(r);
        proof {
            assert(rs@ =~= kept + Seq::new(k as nat + 1, |i: int| r));
        }
        k = k + 1;
    }
    proof {
        assert(Seq::new(3, |i: int| r) =~= seq![r, r, r]);
    }
}

impl Session {
    /// Runs the timers. Call every frame, after handing in what arrived.
    pub fn pump(&mut self, now: u64)
        ensures
            ({
                let first = timer_hello(*old(self), now);
                let hello_at = if first {
                    now
                } else {
                    old(self).last_hello
                };
                let blind = running_blind(*old(self));
                let since0 = match old(self).running_without_state_since {
                    Some(t) => t,
                    None => now,
                };
                let second = blind && since(now, since0) > NO_STATE_REHELLO_MS && since(now, hello_at)
                    > NO_STATE_REHELLO_MS;
                &&& final(self).phase == if old(self).phase != Phase::Connecting && old(self).phase
                    != Phase::Lost && silent(*old(self), now) {
                    Phase::Lost
                } else {
                    old(self).phase
                }
                &&& final(self).running_without_state_since == if blind {
                    Some(since0)
                } else {
                    None
                }
                &&& final(self).outbox@ == old(self).outbox@ + (if first {
                    seq![Outgoing::Hello]
                } else {
                    Seq::empty()
                }) + (if second {
                    seq![Outgoing::Hello]
                } else {
                    Seq::empty()
                })
                &&& final(self).last_hello == if second {
                    now
                } else {
                    hello_at
                }
                &&& final(self).name == old(self).name
                &&& final(self).my_id == old(self).my_id
                &&& final(self).lobby == old(self).lobby
                &&& final(self).init == old(self).init
                &&& final(self).world == old(self).world
                &&& final(self).at_tick == old(self).at_tick
                &&& final(self).result == old(self).result
                &&& final(self).cues == old(self).cues
                &&& final(self).last_frame == old(self).last_frame
                &&& final(self).last_sent == old(self).last_sent
                &&& final(self).state_time == old(self).state_time
                &&& final(self).requests == old(self).requests
            }),
    {
        let silent_now = match self.last_frame {
            Some(t) => elapsed(now, t) > LOST_AFTER_MS as i128,
            None => false,
        };
        match self.phase {
            Phase::Connecting => {
                if elapsed(now, self.last_hello) >= HELLO_INTERVAL_MS as i128 {
                    self.hello(now);
                }
            },
            Phase::Lost => {
                if elapsed(now, self.last_hello) >= REJOIN_INTERVAL_MS as i128 {
                    self.hello(now);
                }
            },
            _ => {
                if silent_now {
                    self.phase = Phase::Lost;
                    self.hello(now);
                }
            },
        }
        // The match announcement lost five times over, or joined mid-match:
        // ask again.
        let running = match &self.lobby {
            Some(l) => l.state == LobbyState::Running,
            None => false,
        };
        if running && self.world.is_none() {
            let since0 = match self.running_without_state_since {
                Some(t) => t,
                None => now,
            };
            self.running_without_state_since = Some(since0);
            if elapsed(now, since0) > NO_STATE_REHELLO_MS as i128 && elapsed(now, self.last_hello)
                > NO_STATE_REHELLO_MS as i128 {
                self.hello(now);
            }
        } else {
            self.running_without_state_since = None;
        }
    }

    fn enqueue(&mut self, request: Request)
        ensures
            final(self).requests@ == enqueue_spec(old(self).requests@, request),
            final(self).name == old(self).name,
            final(self).phase == old(self).phase,
            final(self).my_id == old(self).my_id,
            final(self).lobby == old(self).lobby,
            final(self).init == old(self).init,
            final(self).world == old(self).world,
            final(self).at_tick == old(self).at_tick,
            final(self).result == old(self).result,
            final(self).cues == old(self).cues,
            final(self).outbox == old(self).outbox,
            final(self).last_hello == old(self).last_hello,
            final(self).last_sent == old(self).last_sent,
    {
        drop_requests(&mut self.requests, None, Some(request));
        push_copies(&mut self.requests, request);
    }

    /// Queues a lobby request (Start, Pause, Resume, Abort).
    pub fn request(&mut self, action: Action)
        requires
            is_lobby_request_spec(action),
            action != Action::SeatBot,
        ensures
            final(self).requests@ == enqueue_spec(old(self).requests@, Request::Match(action)),
            final(self).outbox == old(self).outbox,
            final(self).phase == old(self).phase,
    {
        self.enqueue(Request::Match(action));
    }

    /// Queues a request to fill a seat with a server bot, or to remove it.
    /// Setting rather than toggling, so the repeated copies are harmless; a
    /// newer choice for the same seat replaces one still queued.
    pub fn request_seat_bot(&mut self, seat: u8, enabled: bool)
        ensures
            final(self).requests@ == enqueue_spec(
                without(old(self).requests@, Some(seat), None),
                Request::SeatBot { seat, enabled },
            ),
            final(self).outbox == old(self).outbox,
            final(self).phase == old(self).phase,
    {
        drop_requests(&mut self.requests, Some(seat), None);
        self.enqueue(Request::SeatBot { seat, enabled });
    }

    /// The requests still queued, front first.
    pub fn queued(&self) -> (r: Vec<Request>)
        ensures
            r@ == self.requests@,
    {
        let mut r: Vec<Request> = Vec::new();
        let mut i: usize = 0;
        while i < self.requests.len()
            invariant
                i <= self.requests@.len(),
                r@ == self.requests@.take(i as int),
            decreases self.requests.len() - i,
        {
            r.push(self.requests[i]);
            proof {
                assert(r@ =~= self.requests@.take(i as int + 1));
            }
            i = i + 1;
        }
        proof {
            assert(self.requests@.take(self.requests@.len() as int) =~= self.requests@);
        }
        r
    }

    /// Decides this tick's packet, if there is anything worth sending. Call
    /// once per game tick with the move the player (or the bot) wants. A
    /// queued lobby request goes first and takes the tick's place.
    pub fn send_tick(&mut self, action: Action, now: u64)
        ensures
            ({
                let active = old(self).my_id is Some && old(self).phase != Phase::Connecting
                    && old(self).phase != Phase::Lost;
                let rs = old(self).requests@;
                let player = old(self).my_id.unwrap();
                &&& !active ==> final(self).outbox == old(self).outbox && final(self).requests
                    == old(self).requests && final(self).last_sent == old(self).last_sent
                &&& active && rs.len() > 0 ==> final(self).requests@ == rs.drop_first()
                &&& active && rs.len() == 0 ==> final(self).requests@ == rs
                &&& active && rs.len() > 0 ==> (rs[0] matches Request::SeatBot { seat, enabled } ==> {
                    &&& final(self).outbox@ == old(self).outbox@.push(
                        Outgoing::SeatBot { player, seat, enabled },
                    )
                    &&& final(self).last_sent == now
                })
                &&& (active && !(rs.len() > 0 && rs[0] is SeatBot)) ==> {
                    let a = if rs.len() > 0 {
                        rs[0]->Match_0
                    } else {
                        action
                    };
                    &&& a != Action::Idle ==> final(self).outbox@ == old(self).outbox@.push(
                        Outgoing::Action { player, action: a },
                    ) && final(self).last_sent == now
                    &&& a == Action::Idle && since(now, old(self).last_sent) >= HEARTBEAT_MS
                        ==> final(self).outbox@ == old(self).outbox@.push(
                        Outgoing::Action { player, action: Action::Idle },
                    ) && final(self).last_sent == now
                    &&& a == Action::Idle && since(now, old(self).last_sent) < HEARTBEAT_MS
                        ==> final(self).outbox == old(self).outbox && final(self).last_sent
                        == old(self).last_sent
                }
                &&& final(self).phase == old(self).phase
                &&& final(self).my_id == old(self).my_id
                &&& final(self).world == old(self).world
                &&& final(self).cues == old(self).cues
            }),
    {
        let player = match self.my_id {
            Some(id) => id,
            None => return,
        };
        if self.phase == Phase::Connecting || self.phase == Phase::Lost {
            return;
        }
        let action = if self.requests.len() > 0 {
            let front = self.requests.pop_front().unwrap();
            match front {
                Request::Match(request) => request,
                Request::SeatBot { seat, enabled } => {
                    self.outbox.push(Outgoing::SeatBot { player, seat, enabled });
                    self.last_sent = now;
                    return;
                },
            }
        } else {
            action
        };
        if action != Action::Idle {
            self.outbox.push(Outgoing::Action { player, action });
            self.last_sent = now;
        } else if elapsed(now, self.last_sent) >= HEARTBEAT_MS as i128 {
            self.outbox.push(Outgoing::Action { player, action: Action::Idle });
            self.last_sent = now;
        }
    }
}


/// What `without` keeps is unmarked and was in the queue.
proof fn lemma_without_keeps(rs: Seq<Request>, seat: Option<u8>, same: Option<Request>)
    ensures
        forall|i: int|
            0 <= i < without(rs, seat, same).len() ==> !drops(#[trigger] without(rs, seat, same)[i], seat, same)
                && rs.contains(without(rs, seat, same)[i]),
    decreases rs.len(),
{
    if rs.len() > 0 {
        lemma_without_keeps(rs.drop_last(), seat, same);
        let w0 = without(rs.drop_last(), seat, same);
        let w = without(rs, seat, same);
        assert forall|i: int| 0 <= i < w.len() implies !drops(#[trigger] w[i], seat, same) && rs.contains(w[i]) by {
            if i < w0.len() {
                assert(w[i] == w0[i]);
                let j = choose|j: int| 0 <= j < rs.drop_last().len() && rs.drop_last()[j] == w0[i];
                assert(rs[j] == w0[i]);
            } else {
                assert(w[i] == rs.last());
                assert(rs[rs.len() - 1] == rs.last());
            }
        }
    }
}

/// A newer seat-bot choice replaces a queued one: afterwards every request
/// still queued for that seat is the newest choice, and it is queued three
/// times at the back.
pub proof fn lemma_newest_seat_choice_wins(rs: Seq<Request>, seat: u8, enabled: bool)
    ensures
        ({
            let r = Request::SeatBot { seat, enabled };
            let q = enqueue_spec(without(rs, Some(seat), None), r);
            &&& forall|i: int| 0 <= i < q.len() && same_seat(#[trigger] q[i], seat) ==> q[i] == r
            &&& q.len() >= 3
            &&& q.subrange(q.len() - 3, q.len() as int) == seq![r, r, r]
        }),
{
    let r = Request::SeatBot { seat, enabled };
    let w1 = without(rs, Some(seat), None);
    let w2 = without(w1, None, Some(r));
    lemma_without_keeps(rs, Some(seat), None);
    lemma_without_keeps(w1, None, Some(r));
    let q = w2 + seq![r, r, r];
    assert forall|i: int| 0 <= i < q.len() && same_seat(#[trigger] q[i], seat) implies q[i] == r by {
        if i < w2.len() {
            assert(q[i] == w2[i]);
            let j = choose|j: int| 0 <= j < w1.len() && w1[j] == w2[i];
            assert(!drops(w1[j], Some(seat), None));
        }
    }
    assert(q.subrange(q.len() - 3, q.len() as int) =~= seq![r, r, r]);
}

/// Start may be asked for exactly when the server allows it: never without
/// a lobby, its details, player control, or while paused; in a waiting
/// lobby, open or locked alike, whenever the server says a start would
/// succeed; on the results screen once enough players are there; never while
/// a countdown or a match runs.
pub proof fn lemma_start_follows_the_server(l: LobbyStatus, d: LobbyDetails)
    requires
        l.details == Some(d),
    ensures
        !can_request_start_spec(None),
        !can_request_start_spec(Some(LobbyStatus { details: None, ..l })),
        (!d.player_control || d.paused) ==> !can_request_start_spec(Some(l)),
        (d.player_control && !d.paused && (l.state == LobbyState::Open || l.state
            == LobbyState::Locked)) ==> can_request_start_spec(Some(l)) == d.can_start,
        (d.player_control && !d.paused && l.state == LobbyState::MatchOver) ==> can_request_start_spec(
            Some(l),
        ) == (l.players_connected >= d.min_players),
        (l.state == LobbyState::Countdown || l.state == LobbyState::Running) ==> !can_request_start_spec(
            Some(l),
        ),
{
}

} // verus!
