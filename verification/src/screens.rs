//! What the screens show, decided from the session: the lobby's seat cards
//! and bottom line, the round clock, the results table, the player list and
//! the in-game menu. Drawing them is the front end's business.

use vstd::prelude::*;

use crate::domain::{LobbyState, Rules};
use crate::frames::{EndReason, PlayerResult};
use crate::controls::{first_focus, next_focus};
use crate::hints::{edit_spec, lobby_hint, lobby_hint_spec, LobbyHint, TextField};
use crate::lobby_status::LobbyStatus;
use crate::session::{can_change_bots_spec, can_request_start_spec, Phase, Session};
use crate::settings::{address_spec, Settings};
use crate::text::decimal;
use crate::world::{player_index, unique_players, PlayerView};

verus! {

/// What a click on a screen asks for.
#[derive(Debug, Clone, Copy, PartialEq, Eq, Structural)]
pub enum Click {
    Connect,
    Start,
    ToggleBot,
    ToggleSound,
    Disconnect,
    CloseMenu,
    Pause,
    Resume,
    Abort,
    /// Fill a seat with a server bot, or remove it.
    SeatBot { seat: u8, enabled: bool },
}

// -- connect menu ------------------------------------------------------------------

/// The connect menu: name and address fields, one of them focused.
#[derive(Debug, Clone)]
pub struct MenuState {
    pub name: TextField,
    pub address: TextField,
    /// 0 for the name, 1 for the address.
    pub focus: usize,
    pub bot: bool,
    pub error: Option<String>,
}

/// The longest name the menu takes, in characters.
pub const NAME_FIELD_CHARS: usize = 24;

/// The longest address the menu takes, in characters.
pub const ADDRESS_FIELD_CHARS: usize = 64;

/// The menu as the settings fill it in.
pub fn menu_state(settings: &Settings, error: Option<String>) -> (m: MenuState)
    ensures
        m.name.value@ == settings.name@,
        m.name.max_chars == NAME_FIELD_CHARS,
        m.address.value@ == address_spec(settings@),
        m.address.max_chars == ADDRESS_FIELD_CHARS,
        m.focus == if settings.name@.len() == 0 {
            0usize
        } else {
            1usize
        },
        m.bot == settings.bot,
        m.error == error,
{
    let address = settings.address();
    MenuState {
        name: TextField::new(settings.name.as_str(), NAME_FIELD_CHARS),
        address: TextField::new(address.as_str(), ADDRESS_FIELD_CHARS),
        focus: first_focus(settings.name.as_str()),
        bot: settings.bot,
        error,
    }
}

impl MenuState {
    /// One frame of typing: Tab moves the focus first, then the focused
    /// field takes the typed characters and the backspace key. Returns
    /// whether Enter asks to connect.
    pub fn on_input(&mut self, typed: &[char], tab: bool, backspace_key: bool, enter: bool) -> (connect: bool)
        ensures
            connect == enter,
            final(self).focus == if tab {
                ((old(self).focus + 1) % 2) as usize
            } else {
                old(self).focus
            },
            final(self).bot == old(self).bot,
            final(self).error == old(self).error,
            ({
                let field = if final(self).focus == 0 {
                    old(self).name
                } else {
                    old(self).address
                };
                let typed_value = edit_spec(field.value@, typed@, field.max_chars as int);
                let edited = if backspace_key && !typed@.contains('\u{8}') && typed_value.len() > 0 {
                    typed_value.drop_last()
                } else {
                    typed_value
                };
                &&& final(self).focus == 0 ==> final(self).name.value@ == edited
                    && final(self).name.max_chars == old(self).name.max_chars
                    && final(self).address == old(self).address
                &&& final(self).focus != 0 ==> final(self).address.value@ == edited
                    && final(self).address.max_chars == old(self).address.max_chars
                    && final(self).name == old(self).name
            }),
    {
        if tab {
            self.focus = next_focus(self.focus);
        }
        if self.focus == 0 {
            self.name.edit(typed, backspace_key);
        } else {
            self.address.edit(typed, backspace_key);
        }
        enter
    }
}

// -- lobby -------------------------------------------------------------------------

/// The line under a seat's name.
#[derive(Debug, Clone, Copy, PartialEq, Eq, Structural)]
pub enum SeatStatusLine {
    Me { bot: bool },
    Ready,
    Stale,
    /// Played by the server itself.
    ServerBot,
}

/// One card of the lobby's seat grid.
#[derive(Debug, Clone, PartialEq, Eq)]
pub enum SeatCard {
    /// An empty seat, with a button for a server bot where bots may change.
    Free { seat: u8, can_add_bot: bool },
    /// A taken seat, with a corner button to remove a server bot.
    Taken { seat: u8, name: String, me: bool, status: SeatStatusLine, can_remove_bot: bool },
}

/// The grid shows every seat of the lobby, empty ones included, and at least one.
pub open spec fn seat_count(l: LobbyStatus) -> int {
    if l.max_players == 0 {
        1
    } else {
        l.max_players as int
    }
}

/// How many seats the lobby's details describe.
pub open spec fn described_seats(l: LobbyStatus) -> int {
    match l.details {
        Some(d) => d.seats@.len() as int,
        None => 0,
    }
}

/// A seat the details do not describe is read from the slot mask, which has
/// eight bits: the grid stays within them or within the described seats.
pub open spec fn seats_readable(l: LobbyStatus) -> bool {
    seat_count(l) <= 8 || seat_count(l) <= described_seats(l)
}

pub open spec fn seat_occupied(l: LobbyStatus, i: int) -> bool {
    if i < described_seats(l) {
        l.details.unwrap().seats@[i].occupied
    } else {
        l.slot_mask & (1u8 << (i as u8)) != 0
    }
}

/// The name shown for a seat: the server's, else `bot-` and the seat number.
pub open spec fn seat_name(lobby: Option<LobbyStatus>, id: u8) -> Seq<char> {
    if lobby matches Some(l) && l.details matches Some(d) && (id as int) < d.seats@.len() {
        lobby.unwrap().details.unwrap().seats@[id as int].name@
    } else {
        seq!['b', 'o', 't', '-'] + decimal(id as nat)
    }
}

/// Card `i` of the lobby `l` as session `s` and the bot switch `bot` make it.
pub open spec fn seat_card_ok(s: Session, l: LobbyStatus, i: int, bot: bool, c: SeatCard) -> bool {
    let can = can_change_bots_spec(s.lobby);
    if seat_occupied(l, i) {
        let described = i < described_seats(l);
        let server_bot = described && l.details.unwrap().seats@[i].bot;
        let stale = described && l.details.unwrap().seats@[i].stale;
        let me = s.my_id == Some(i as u8);
        &&& c matches SeatCard::Taken { seat, name, me: m, status, can_remove_bot }
        &&& seat == i
        &&& name@ == seat_name(s.lobby, i as u8)
        &&& m == me
        &&& status == if server_bot {
            SeatStatusLine::ServerBot
        } else if stale {
            SeatStatusLine::Stale
        } else if me {
            SeatStatusLine::Me { bot }
        } else {
            SeatStatusLine::Ready
        }
        &&& can_remove_bot == (server_bot && can)
    } else {
        c == SeatCard::Free { seat: i as u8, can_add_bot: can }
    }
}

/// The lobby's seat cards, in seat order; none before a lobby is known.
pub fn lobby_seats(s: &Session, bot: bool) -> (cards: Vec<SeatCard>)
    requires
        s.lobby matches Some(l) ==> seats_readable(l),
    ensures
        match s.lobby {
            None => cards@.len() == 0,
            Some(l) => {
                &&& cards@.len() == seat_count(l)
                &&& forall|i: int| 0 <= i < cards@.len() ==> seat_card_ok(*s, l, i, bot, #[trigger] cards@[i])
            },
        },
{
    let mut cards: Vec<SeatCard> = Vec::new();
    let lobby = match &s.lobby {
        Some(l) => l,
        None => return cards,
    };
    let can = s.can_change_bots();
    let seats: usize = if lobby.max_players == 0 {
        1
    } else {
        lobby.max_players as usize
    };
    let described: usize = match &lobby.details {
        Some(d) => d.seats.len(),
        None => 0,
    };
    let mut i: usize = 0;
    while i < seats
        invariant
            s.lobby == Some(*lobby),
            seats == seat_count(*lobby),
            described == described_seats(*lobby),
            seats_readable(*lobby),
            can == can_change_bots_spec(s.lobby),
            i <= seats,
            seats <= 255,
            cards@.len() == i,
            forall|k: int| 0 <= k < i ==> seat_card_ok(*s, *lobby, k, bot, #[trigger] cards@[k]),
        decreases seats - i,
    {
        let id = i as u8;
        let (occupied, server_bot, stale) = if i < described {
            let d = lobby.details.as_ref().unwrap();
            (d.seats[i].occupied, d.seats[i].bot, d.seats[i].stale)
        } else {
            (lobby.slot_mask & (1u8 << id) != 0, false, false)
        };
        if occupied {
            let me = match s.my_id {
                Some(m) => m == id,
                None => false,
            };
            let status = if server_bot {
                SeatStatusLine::ServerBot
            } else if stale {
                SeatStatusLine::Stale
            } else if me {
                SeatStatusLine::Me { bot }
            } else {
                SeatStatusLine::Ready
            };
            let name = s.name_of(id);
            cards.push(
                SeatCard::Taken { seat: id, name, me, status, can_remove_bot: server_bot && can },
            );
        } else {
            cards.push(SeatCard::Free { seat: id, can_add_bot: can });
        }
        i = i + 1;
    }
    cards
}

/// The ceiling of `a / b`.
pub open spec fn ceil_div(a: int, b: int) -> int {
    (a + b - 1) / b
}

/// The big number of the start countdown: whole seconds left, rounded up,
/// and never below one.
pub fn countdown_number(ticks: u16) -> (n: u32)
    ensures
        n == if ticks == 0 {
            1
        } else {
            ceil_div(ticks as int, 60)
        },
{
    let secs = ((ticks as u32) + 59) / 60;
    if secs == 0 {
        1
    } else {
        secs
    }
}

/// Below the seats: the countdown while one runs, else the hint and the
/// start button.
#[derive(Debug, Clone, Copy, PartialEq, Eq, Structural)]
pub enum LobbyBottom {
    Countdown(u32),
    Hint { hint: LobbyHint, start_enabled: bool },
}

pub fn lobby_bottom(s: &Session) -> (b: Option<LobbyBottom>)
    ensures
        match s.lobby {
            None => b is None,
            Some(l) => if l.state == LobbyState::Countdown {
                b == Some(LobbyBottom::Countdown(
                    if l.countdown_ticks == 0 {
                        1
                    } else {
                        ceil_div(l.countdown_ticks as int, 60) as u32
                    },
                ))
            } else {
                b == Some(
                    LobbyBottom::Hint {
                        hint: lobby_hint_spec(*s),
                        start_enabled: can_request_start_spec(s.lobby),
                    },
                )
            },
        },
{
    match &s.lobby {
        None => None,
        Some(l) => {
            if l.state == LobbyState::Countdown {
                Some(LobbyBottom::Countdown(countdown_number(l.countdown_ticks)))
            } else {
                Some(LobbyBottom::Hint { hint: lobby_hint(s), start_enabled: s.can_request_start() })
            }
        },
    }
}

// -- in-game HUD -------------------------------------------------------------------

/// The rules a session plays by: the match's, or the defaults before one is
/// announced.
pub open spec fn session_rules(s: Session) -> Rules {
    match s.init {
        Some(i) => i.rules,
        None => Rules {
            round_time_ticks: 10800,
            sudden_death_tick: 7200,
            bomb_fuse_ticks: 120,
            flame_duration_ticks: 30,
            max_flame: 8,
            base_ticks_per_cell: 8,
            min_ticks_per_cell: 4,
        },
    }
}

/// Whole seconds left in the round at `tick`, rounded up.
pub open spec fn seconds_left(rules: Rules, tick: u32) -> int {
    ceil_div(
        if rules.round_time_ticks >= tick {
            rules.round_time_ticks - tick
        } else {
            0
        },
        60,
    )
}

/// The round clock above the board, as minutes and seconds.
#[derive(Debug, Clone, Copy, PartialEq, Eq, Structural)]
pub struct RoundClock {
    pub minutes: u32,
    pub seconds: u32,
    /// The last ten seconds of a running match.
    pub urgent: bool,
}

pub fn round_clock(s: &Session) -> (c: Option<RoundClock>)
    ensures
        match s.world {
            None => c is None,
            Some(w) => {
                let secs = seconds_left(session_rules(*s), w.tick);
                c == Some(
                    RoundClock {
                        minutes: (secs / 60) as u32,
                        seconds: (secs % 60) as u32,
                        urgent: secs <= 10 && s.phase == Phase::Playing,
                    },
                )
            },
        },
{
    let tick = match &s.world {
        Some(w) => w.tick,
        None => return None,
    };
    let rules = s.rules();
    let left: u32 = if rules.round_time_ticks >= tick {
        rules.round_time_ticks - tick
    } else {
        0
    };
    let secs: u32 = left / 60 + if left % 60 == 0 {
        0
    } else {
        1
    };
    assert(secs == ceil_div(left as int, 60));
    Some(
        RoundClock {
            minutes: secs / 60,
            seconds: secs % 60,
            urgent: secs <= 10 && s.phase == Phase::Playing,
        },
    )
}

/// The sudden-death line beside the clock.
#[derive(Debug, Clone, Copy, PartialEq, Eq, Structural)]
pub enum SuddenDeathNotice {
    Hidden,
    /// The border is closing in.
    Now,
    /// It starts in this many seconds.
    In(u32),
}

pub open spec fn sudden_death_spec(rules: Rules, tick: u32) -> SuddenDeathNotice {
    if rules.sudden_death_tick < rules.round_time_ticks {
        let until = rules.sudden_death_tick - tick;
        if until <= 0 {
            SuddenDeathNotice::Now
        } else if until <= 20 * 60 {
            SuddenDeathNotice::In(ceil_div(until, 60) as u32)
        } else {
            SuddenDeathNotice::Hidden
        }
    } else {
        SuddenDeathNotice::Hidden
    }
}

pub fn sudden_death_notice(s: &Session) -> (n: SuddenDeathNotice)
    ensures
        n == match s.world {
            None => SuddenDeathNotice::Hidden,
            Some(w) => sudden_death_spec(session_rules(*s), w.tick),
        },
{
    let tick = match &s.world {
        Some(w) => w.tick,
        None => return SuddenDeathNotice::Hidden,
    };
    let rules = s.rules();
    if rules.sudden_death_tick < rules.round_time_ticks {
        if rules.sudden_death_tick <= tick {
            SuddenDeathNotice::Now
        } else {
            let until: u32 = rules.sudden_death_tick - tick;
            if until <= 20 * 60 {
                SuddenDeathNotice::In((until + 59) / 60)
            } else {
                SuddenDeathNotice::Hidden
            }
        }
    } else {
        SuddenDeathNotice::Hidden
    }
}

/// What the player list beside the board adds to a name.
#[derive(Debug, Clone, Copy, PartialEq, Eq, Structural)]
pub enum PlayerTag {
    Plain,
    /// The local player, playing by hand.
    You,
    /// The local player, played by the bot.
    YourBot,
}

/// One card of the player list.
#[derive(Debug, Clone, PartialEq, Eq)]
pub struct SidebarRow {
    pub player: PlayerView,
    pub name: String,
    pub me: bool,
    pub tag: PlayerTag,
}

pub open spec fn sidebar_row_ok(s: Session, bot: bool, r: SidebarRow) -> bool {
    let me = s.my_id == Some(r.player.id);
    &&& r.name@ == seat_name(s.lobby, r.player.id)
    &&& r.me == me
    &&& r.tag == if !me {
        PlayerTag::Plain
    } else if bot {
        PlayerTag::YourBot
    } else {
        PlayerTag::You
    }
}

/// The player list: every player of the world, by increasing id.
pub fn sidebar_rows(s: &Session, bot: bool) -> (rows: Vec<SidebarRow>)
    requires
        s.world matches Some(w) ==> unique_players(w.players@),
    ensures
        match s.world {
            None => rows@.len() == 0,
            Some(w) => {
                &&& forall|i: int, j: int|
                    0 <= i < j < rows@.len() ==> rows@[i].player.id < rows@[j].player.id
                &&& forall|i: int|
                    0 <= i < rows@.len() ==> w.players@.contains(#[trigger] rows@[i].player)
                        && sidebar_row_ok(*s, bot, rows@[i])
                &&& forall|k: int|
                    0 <= k < w.players@.len() ==> exists|i: int|
                        0 <= i < rows@.len() && #[trigger] rows@[i].player == #[trigger] w.players@[k]
            },
        },
{
    let mut rows: Vec<SidebarRow> = Vec::new();
    let w = match &s.world {
        Some(w) => w,
        None => return rows,
    };
    let mut id: u16 = 0;
    while id < 256
        invariant
            s.world == Some(*w),
            unique_players(w.players@),
            id <= 256,
            forall|i: int, j: int| 0 <= i < j < rows@.len() ==> rows@[i].player.id < rows@[j].player.id,
            forall|i: int| 0 <= i < rows@.len() ==> rows@[i].player.id < id,
            forall|i: int|
                0 <= i < rows@.len() ==> w.players@.contains(#[trigger] rows@[i].player)
                    && sidebar_row_ok(*s, bot, rows@[i]),
            forall|k: int|
                0 <= k < w.players@.len() && w.players@[k].id < id ==> exists|i: int|
                    0 <= i < rows@.len() && #[trigger] rows@[i].player == #[trigger] w.players@[k],
        decreases 256 - id,
    {
        let pid = id as u8;
        match w.player(pid) {
            Some(p) => {
                let me = match s.my_id {
                    Some(m) => m == pid,
                    None => false,
                };
                let tag = if !me {
                    PlayerTag::Plain
                } else if bot {
                    PlayerTag::YourBot
                } else {
                    PlayerTag::You
                };
                let name = s.name_of(pid);
                let ghost before = rows@;
                let ghost at = player_index(w@.players, pid);
                proof {
                    assert(w@.players == w.players@);
                    assert(w.players@.contains(p)) by {
                        assert(w.players@[at] == p);
                    }
                }
                rows.push(SidebarRow { player: p, name, me, tag });
                proof {
                    assert forall|k: int|
                        0 <= k < w.players@.len() && w.players@[k].id < id + 1 implies exists|i: int|
                        0 <= i < rows@.len() && #[trigger] rows@[i].player == #[trigger] w.players@[k] by {
                        if w.players@[k].id < id {
                            let i = choose|i: int| 0 <= i < before.len() && #[trigger] before[i].player == w.players@[k];
                            assert(rows@[i] == before[i]);
                        } else {
                            assert(k == at);
                            assert(rows@[before.len() as int].player == w.players@[k]);
                        }
                    }
                }
            },
            None => {
                proof {
                    assert(w@.players == w.players@);
                    assert forall|k: int|
                        0 <= k < w.players@.len() && w.players@[k].id < id + 1 implies exists|i: int|
                        0 <= i < rows@.len() && #[trigger] rows@[i].player == #[trigger] w.players@[k] by {
                        if w.players@[k].id == id {
                            assert(player_index(w@.players, pid) != -1);
                        }
                    }
                }
            },
        }
        id = id + 1;
    }
    rows
}

// -- results -----------------------------------------------------------------------

/// The results table is ordered by placement, then id, then score.
pub open spec fn result_le(a: PlayerResult, b: PlayerResult) -> bool {
    ||| a.placement < b.placement
    ||| a.placement == b.placement && a.id < b.id
    ||| a.placement == b.placement && a.id == b.id && a.score <= b.score
}

pub open spec fn results_sorted(s: Seq<PlayerResult>) -> bool {
    forall|i: int, j: int| 0 <= i < j < s.len() ==> result_le(s[i], s[j])
}

fn result_le_exec(a: PlayerResult, b: PlayerResult) -> (r: bool)
    ensures
        r == result_le(a, b),
{
    a.placement < b.placement || (a.placement == b.placement && a.id < b.id) || (a.placement
        == b.placement && a.id == b.id && a.score <= b.score)
}

/// The results in table order: the same entries, sorted.
pub fn standings(results: &Vec<PlayerResult>) -> (rows: Vec<PlayerResult>)
    ensures
        results_sorted(rows@),
        rows@.to_multiset() == results@.to_multiset(),
{
    let mut rows: Vec<PlayerResult> = Vec::new();
    let mut i: usize = 0;
    assert(results@.take(0) =~= rows@);
    while i < results.len()
        invariant
            i <= results@.len(),
            results_sorted(rows@),
            rows@.to_multiset() == results@.take(i as int).to_multiset(),
        decreases results.len() - i,
    {
        let x = results[i];
        let mut j: usize = 0;
        while j < rows.len() && result_le_exec(rows[j], x)
            invariant
                j <= rows@.len(),
                forall|k: int| 0 <= k < j ==> result_le(#[trigger] rows@[k], x),
            decreases rows.len() - j,
        {
            j = j + 1;
        }
        let ghost before = rows@;
        rows.insert(j, x);
        proof {
            assert(rows@ == before.insert(j as int, x));
            assert(results@.take(i as int + 1) =~= results@.take(i as int).push(x));
            vstd::seq_lib::to_multiset_insert(before, j as int, x);
            vstd::seq_lib::to_multiset_build(results@.take(i as int), x);
            assert forall|a: int, b: int| 0 <= a < b < rows@.len() implies result_le(
                rows@[a],
                rows@[b],
            ) by {
                if b == j {
                    assert(rows@[a] == before[a]);
                } else if a == j {
                    assert(rows@[b] == before[b - 1]);
                    assert(!result_le(before[j as int], x));
                    assert(result_le(before[j as int], before[b - 1]) || b - 1 == j);
                } else {
                    let a0 = if a < j { a } else { a - 1 };
                    let b0 = if b < j { b } else { b - 1 };
                    assert(rows@[a] == before[a0]);
                    assert(rows@[b] == before[b0]);
                }
            }
        }
        i = i + 1;
    }
    proof {
        assert(results@.take(results@.len() as int) =~= results@);
    }
    rows
}

/// When the next match cannot be started from the results screen, why.
#[derive(Debug, Clone, Copy, PartialEq, Eq, Structural)]
pub enum NextMatchHint {
    TooFewPlayers,
    /// Only the moderation starts matches here.
    ModeratorStarts,
}

/// What the results screen shows.
#[derive(Debug, Clone, PartialEq, Eq)]
pub struct ResultsView {
    pub winner: Option<u8>,
    /// `None` when the match is over but its end was not heard.
    pub reason: Option<EndReason>,
    pub standings: Vec<PlayerResult>,
    pub start_enabled: bool,
    pub hint: Option<NextMatchHint>,
}

pub fn results_view(s: &Session) -> (v: ResultsView)
    ensures
        match s.result {
            Some(end) => {
                &&& v.winner == end.winner
                &&& v.reason == Some(end.reason)
                &&& results_sorted(v.standings@)
                &&& v.standings@.to_multiset() == end.results@.to_multiset()
            },
            None => v.winner is None && v.reason is None && v.standings@.len() == 0,
        },
        v.start_enabled == can_request_start_spec(s.lobby),
        v.hint == if can_request_start_spec(s.lobby) {
            None
        } else if s.lobby matches Some(l) && l.details matches Some(d) && d.player_control {
            Some(NextMatchHint::TooFewPlayers)
        } else {
            Some(NextMatchHint::ModeratorStarts)
        },
{
    let (winner, reason, rows) = match &s.result {
        Some(end) => (end.winner, Some(end.reason), standings(&end.results)),
        None => (None, None, Vec::new()),
    };
    let can = s.can_request_start();
    let hint = if can {
        None
    } else if s.player_control() {
        Some(NextMatchHint::TooFewPlayers)
    } else {
        Some(NextMatchHint::ModeratorStarts)
    };
    ResultsView { winner, reason, standings: rows, start_enabled: can, hint }
}

// -- in-game menu ------------------------------------------------------------------

/// What the in-game menu is drawn from.
#[derive(Debug, Clone, Copy, PartialEq, Eq, Structural)]
pub struct GameMenuView {
    pub playing: bool,
    pub paused: bool,
    pub bot: bool,
    pub sound: bool,
    pub confirm_abort: bool,
    pub player_control: bool,
}

pub open spec fn game_menu_spec(v: GameMenuView) -> Seq<Click> {
    seq![Click::CloseMenu] + (if v.playing && v.player_control {
        seq![if v.paused { Click::Resume } else { Click::Pause }, Click::Abort]
    } else {
        Seq::empty()
    }) + seq![Click::ToggleBot, Click::ToggleSound, Click::Disconnect]
}

/// The menu's buttons, top to bottom. The first is the primary one; Abort is
/// marked as dangerous while it waits for confirmation.
pub fn game_menu_items(v: &GameMenuView) -> (items: Vec<Click>)
    ensures
        items@ == game_menu_spec(*v),
{
    let mut items: Vec<Click> = Vec::new();
    items.push(Click::CloseMenu);
    if v.playing && v.player_control {
        if v.paused {
            items.push(Click::Resume);
        } else {
            items.push(Click::Pause);
        }
        items.push(Click::Abort);
    }
    items.push(Click::ToggleBot);
    items.push(Click::ToggleSound);
    items.push(Click::Disconnect);
    items
}

} // verus!
