//! The glue for anyone who has frames rather than a world: feed a [`Driver`]
//! every frame addressed to the seat and ask it for an action once a tick.
//! The server seats the same driver as its own bots.

use vstd::prelude::*;

use crate::bot::{bot_action, decide_spec, decided, memo_fresh, memo_wf, Bot, Memo, Situation, CLOCK_PER_TICK};
use crate::domain::{Action, LobbyState};
use crate::frames::{frame_ok, Delta, MatchInit, ServerFrame};
use crate::world::{apply_delta, keyframe_world, world_wf, FxEvent, World, WorldView};

verus! {

/// One seat played by the bot, fed with the same frames a networked client
/// would receive.
///
/// A keyframe is always trusted, a delta only on exactly its base tick --
/// even though an in-process seat never loses a frame. It keeps the driver
/// honest if it is ever fed from a real socket.
pub struct Driver {
    bot: Bot,
    init: Option<MatchInit>,
    world: Option<World>,
    at_tick: Option<u32>,
    /// Between the match announcement and its end.
    playing: bool,
}

/// A driver as plain values.
pub struct DriverView {
    pub init: Option<MatchInit>,
    pub world: Option<WorldView>,
    pub at_tick: Option<u32>,
    pub playing: bool,
}

impl View for Driver {
    type V = DriverView;

    closed spec fn view(&self) -> DriverView {
        DriverView {
            init: self.init,
            world: match self.world {
                Some(w) => Some(w@),
                None => None,
            },
            at_tick: self.at_tick,
            playing: self.playing,
        }
    }
}

/// What one frame does to a driver.
pub open spec fn observe_spec(d: DriverView, f: ServerFrame) -> DriverView {
    match f {
        ServerFrame::Assigned(_) => d,
        ServerFrame::LobbyStatus(status) => if status.state != LobbyState::Running && status.state
            != LobbyState::MatchOver {
            DriverView { playing: false, world: None, at_tick: None, ..d }
        } else {
            d
        },
        ServerFrame::MatchInit(init) => {
            let repeat = d.init matches Some(old) && old.match_id == init.match_id;
            if repeat {
                DriverView { init: Some(init), playing: true, ..d }
            } else {
                DriverView { init: Some(init), playing: true, world: None, at_tick: None }
            }
        },
        ServerFrame::Keyframe(k) => if d.init is None || (d.at_tick matches Some(t) && k.tick < t) {
            d
        } else {
            DriverView { world: Some(keyframe_world(k)), at_tick: Some(k.tick), ..d }
        },
        ServerFrame::Delta(delta) => match d.world {
            Some(w) => if d.at_tick == Some(delta.base_tick) {
                DriverView {
                    world: Some(apply_delta(w, delta.tick, delta.records@).0),
                    at_tick: Some(delta.tick),
                    ..d
                }
            } else {
                d
            },
            None => d,
        },
        ServerFrame::MatchEnd(_) => DriverView { playing: false, ..d },
    }
}

impl Driver {
    /// The bot's memory and the world held are well-formed.
    pub closed spec fn wf(&self) -> bool {
        &&& memo_wf(self.bot.memo)
        &&& self.world matches Some(w) ==> world_wf(w@)
    }

    /// What the bot remembers between ticks.
    pub closed spec fn memo(&self) -> Memo {
        self.bot.memo
    }

    pub fn new() -> (d: Driver)
        ensures
            d.wf(),
            memo_fresh(d.memo()),
            d@.init is None,
            d@.world is None,
            d@.at_tick is None,
            !d@.playing,
    {
        Driver { bot: Bot::default(), init: None, world: None, at_tick: None, playing: false }
    }

    /// Takes in one frame addressed to the seat.
    pub fn observe(&mut self, frame: &ServerFrame)
        requires
            old(self).wf(),
            frame_ok(*frame),
        ensures
            final(self).wf(),
            final(self)@ == observe_spec(old(self)@, *frame),
            if frame matches ServerFrame::MatchInit(init) && !(old(self)@.init matches Some(o)
                && o.match_id == init.match_id) {
                memo_fresh(final(self).memo())
            } else {
                final(self).memo() == old(self).memo()
            },
    {
        match frame {
            ServerFrame::Assigned(_) => {},
            ServerFrame::LobbyStatus(status) => {
                if status.state != LobbyState::Running && status.state != LobbyState::MatchOver {
                    self.playing = false;
                    self.world = None;
                    self.at_tick = None;
                }
            },
            ServerFrame::MatchInit(init) => {
                let repeat = match &self.init {
                    Some(old) => old.match_id == init.match_id,
                    None => false,
                };
                if !repeat {
                    self.world = None;
                    self.at_tick = None;
                    self.bot.reset();
                }
                self.init = Some(*init);
                self.playing = true;
            },
            ServerFrame::Keyframe(keyframe) => {
                if self.init.is_none() {
                    return;
                }
                match self.at_tick {
                    Some(t) => {
                        if keyframe.tick < t {
                            return;
                        }
                    },
                    None => {},
                }
                self.world = Some(World::from_keyframe(keyframe));
                self.at_tick = Some(keyframe.tick);
            },
            ServerFrame::Delta(delta) => {
                let on_base = match self.at_tick {
                    Some(t) => t == delta.base_tick,
                    None => false,
                };
                if self.world.is_none() || !on_base {
                    return;
                }
                let mut world = self.world.take().unwrap();
                let mut fx: Vec<FxEvent> = Vec::new();
                world.apply(delta.tick, delta.records.as_slice(), &mut fx);
                self.world = Some(world);
                self.at_tick = Some(delta.tick);
            },
            ServerFrame::MatchEnd(_) => {
                self.playing = false;
            },
        }
    }

    /// The action for this tick. `session_tick` stands in for the wall clock
    /// the bot uses to dead-reckon across a lost delta. Idle until a match is
    /// announced and a state is held, and once the match is over. A state
    /// so late in a session that the bot's bomb bans would overflow the tick
    /// counter gets no decision either.
    pub fn act(&mut self, session_tick: u32) -> (a: Action)
        requires
            old(self).wf(),
        ensures
            final(self).wf(),
            (old(self)@.init is None || old(self)@.world is None || !old(self)@.playing) ==> a
                == Action::Idle,
            a == act_spec(old(self)@, old(self).memo(), session_tick),
            bot_action(a),
            ({
                let d = old(self)@;
                let init = d.init.unwrap();
                let decides = d.init is Some && d.world is Some && d.playing && !(d.at_tick matches Some(t)
                    && t > u32::MAX - init.rules.bomb_fuse_ticks);
                let now = (session_tick * CLOCK_PER_TICK) as u64;
                &&& !decides ==> final(self).memo() == old(self).memo()
                &&& decides ==> decided(
                    old(self).memo(),
                    d.world.unwrap(),
                    init.rules,
                    init.your_player_id,
                    d.at_tick,
                    Some(init.match_id),
                    now,
                    a,
                    final(self).memo(),
                )
            }),
            final(self)@ == old(self)@,
    {
        let init = match self.init {
            Some(init) => init,
            None => return Action::Idle,
        };
        if self.world.is_none() || !self.playing {
            return Action::Idle;
        }
        match self.at_tick {
            Some(t) => {
                if t > u32::MAX - init.rules.bomb_fuse_ticks as u32 {
                    return Action::Idle;
                }
            },
            None => {},
        }
        let world = self.world.as_ref().unwrap();
        let situation = Situation {
            world,
            rules: init.rules,
            my_id: init.your_player_id,
            at_tick: self.at_tick,
            match_id: Some(init.match_id),
            now: session_tick as u64 * CLOCK_PER_TICK,
        };
        self.bot.decide(&situation)
    }
}

/// The action a driver in state `d`, whose bot remembers `memo`, answers
/// for `session_tick`: the bot's decision while a match is played and a
/// state is held, Idle otherwise and on a state so late that a bomb's fuse
/// would run past the tick counter.
pub open spec fn act_spec(d: DriverView, memo: Memo, session_tick: u32) -> Action {
    let init = d.init.unwrap();
    if d.init is Some && d.world is Some && d.playing && !(d.at_tick matches Some(t) && t > u32::MAX
        - init.rules.bomb_fuse_ticks) {
        decide_spec(
            memo,
            d.world.unwrap(),
            init.rules,
            init.your_player_id,
            d.at_tick,
            Some(init.match_id),
            (session_tick * CLOCK_PER_TICK) as u64,
        )
    } else {
        Action::Idle
    }
}

/// One seat played by the server itself.
///
/// It sees exactly what a networked client in that seat would receive and
/// answers with an ordinary action, so a server bot has no advantage over a
/// player -- and the session needs no second code path for it.
pub trait SeatBot {
    /// The seat's own state is in order.
    spec fn wf(&self) -> bool;

    /// A frame addressed to this seat, unicast or broadcast.
    fn observe(&mut self, frame: &ServerFrame)
        requires
            old(self).wf(),
            frame_ok(*frame),
        ensures
            final(self).wf(),
    ;

    /// The action for the coming tick. Idle sends nothing.
    fn act(&mut self, session_tick: u32) -> (a: Action)
        requires
            old(self).wf(),
        ensures
            final(self).wf(),
    ;
}

/// The built-in bot in a seat.
pub struct BuiltinBot(pub Driver);

impl SeatBot for BuiltinBot {
    open spec fn wf(&self) -> bool {
        self.0.wf()
    }

    fn observe(&mut self, frame: &ServerFrame)
        ensures
            final(self).0@ == observe_spec(old(self).0@, *frame),
    {
        self.0.observe(frame);
    }

    fn act(&mut self, session_tick: u32) -> (a: Action)
        ensures
            a == act_spec(old(self).0@, old(self).0.memo(), session_tick),
            bot_action(a),
            final(self).0@ == old(self).0@,
    {
        self.0.act(session_tick)
    }
}

/// Where server bots come from: an interface, so that the arena stays free of any
/// particular bot and can seat a scripted one.
pub trait BotFactory {
    type Bot: SeatBot;

    /// A bot for `seat`, ready to observe.
    fn create(&self, seat: u8) -> (b: Self::Bot)
        ensures
            b.wf(),
    ;
}

/// Hands out a fresh built-in bot for every seat that asks for one.
pub struct BuiltinBots;

impl BotFactory for BuiltinBots {
    type Bot = BuiltinBot;

    fn create(&self, seat: u8) -> (b: BuiltinBot)
        ensures
            memo_fresh(b.0.memo()),
            b.0@.init is None,
            b.0@.world is None,
            b.0@.at_tick is None,
            !b.0@.playing,
    {
        BuiltinBot(Driver::new())
    }
}

/// A delta that follows exactly the tick the driver holds is applied to the held world: the
/// world becomes the old one with the delta's records applied at the delta's tick, and the
/// driver then holds that tick. The match and the playing flag stay as they were. A delta on
/// any other base, or with no world held, changes nothing.
pub proof fn lemma_delta_applies_on_its_base(d: DriverView, delta: Delta)
    ensures
        d.world is Some && d.at_tick == Some(delta.base_tick) ==> {
            let w = d.world->Some_0;
            let after = observe_spec(d, ServerFrame::Delta(delta));
            &&& after.world == Some(apply_delta(w, delta.tick, delta.records@).0)
            &&& after.at_tick == Some(delta.tick)
            &&& after.init == d.init
            &&& after.playing == d.playing
        },
        !(d.world is Some && d.at_tick == Some(delta.base_tick)) ==> observe_spec(
            d,
            ServerFrame::Delta(delta),
        ) == d,
{
}

} // verus!
