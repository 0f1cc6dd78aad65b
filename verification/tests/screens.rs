use bomber::domain::{LobbyState, Tile};
use bomber::frames::{EndReason, MatchEnd, PlayerResult};
use bomber::hints::LobbyHint;
use bomber::lobby_status::{LobbyDetails, LobbyStatus, SeatStatus};
use bomber::screens::{
    countdown_number, game_menu_items, menu_state, lobby_bottom, lobby_seats, results_view, round_clock,
    sidebar_rows, standings, sudden_death_notice, Click, GameMenuView, LobbyBottom,
    NextMatchHint, PlayerTag, RoundClock, SeatCard, SeatStatusLine, SuddenDeathNotice,
};
use bomber::session::{Phase, Session};
use bomber::settings::Settings;
use bomber::world::{PlayerView, World};
use bomber::domain::Direction;

fn seat(occupied: bool, stale: bool, bot: bool, name: &str) -> SeatStatus {
    SeatStatus {
        occupied,
        stale,
        bot,
        bot_fill: false,
        name: name.to_string(),
    }
}

fn lobby(state: LobbyState, max_players: u8, slot_mask: u8, details: Option<LobbyDetails>) -> LobbyStatus {
    LobbyStatus {
        tick: 1,
        state,
        players_connected: 2,
        max_players,
        slot_mask,
        countdown_ticks: 0,
        details,
    }
}

fn details(seats: Vec<SeatStatus>, server_bots: bool) -> LobbyDetails {
    LobbyDetails {
        paused: false,
        can_start: true,
        player_control: true,
        server_bots,
        min_players: 2,
        seats,
    }
}

fn session_with(l: Option<LobbyStatus>) -> Session {
    let mut s = Session::new("Me".to_string(), 0);
    s.lobby = l;
    s
}

fn player(id: u8, alive: bool) -> PlayerView {
    PlayerView {
        id,
        alive,
        moving: false,
        x: 1,
        y: 1,
        dir: Direction::Down,
        move_progress: 0,
        bombs_max: 1,
        flame: 2,
        speed: 0,
        score: id as u16 * 10,
    }
}

fn world(tick: u32, players: Vec<PlayerView>) -> World {
    World {
        width: 3,
        height: 3,
        tiles: vec![Tile::Empty; 9],
        players,
        bombs: vec![],
        flames: vec![],
        powerups: vec![],
        ticks_remaining: 0,
        tick,
    }
}

#[test]
fn seat_cards_describe_every_seat() {
    let d = details(
        vec![
            seat(true, false, false, "Anna"),
            seat(true, false, true, "Robo"),
            seat(true, true, false, "Lisa"),
            seat(false, false, false, ""),
        ],
        true,
    );
    let mut s = session_with(Some(lobby(LobbyState::Open, 4, 0b0111, Some(d))));
    s.my_id = Some(0);
    let cards = lobby_seats(&s, true);
    assert_eq!(cards.len(), 4);
    assert_eq!(
        cards[0],
        SeatCard::Taken {
            seat: 0,
            name: "Anna".to_string(),
            me: true,
            status: SeatStatusLine::Me { bot: true },
            can_remove_bot: false
        }
    );
    assert_eq!(
        cards[1],
        SeatCard::Taken {
            seat: 1,
            name: "Robo".to_string(),
            me: false,
            status: SeatStatusLine::ServerBot,
            can_remove_bot: true
        }
    );
    assert_eq!(
        cards[2],
        SeatCard::Taken {
            seat: 2,
            name: "Lisa".to_string(),
            me: false,
            status: SeatStatusLine::Stale,
            can_remove_bot: false
        }
    );
    assert_eq!(
        cards[3],
        SeatCard::Free {
            seat: 3,
            can_add_bot: true
        }
    );
}

#[test]
fn without_details_the_slot_mask_decides() {
    let s = session_with(Some(lobby(LobbyState::Locked, 3, 0b101, None)));
    let cards = lobby_seats(&s, false);
    assert_eq!(
        cards,
        vec![
            SeatCard::Taken {
                seat: 0,
                name: "bot-0".to_string(),
                me: false,
                status: SeatStatusLine::Ready,
                can_remove_bot: false
            },
            SeatCard::Free {
                seat: 1,
                can_add_bot: false
            },
            SeatCard::Taken {
                seat: 2,
                name: "bot-2".to_string(),
                me: false,
                status: SeatStatusLine::Ready,
                can_remove_bot: false
            },
        ]
    );
}

#[test]
fn a_lobby_of_no_seats_still_shows_one() {
    let s = session_with(Some(lobby(LobbyState::Open, 0, 0, None)));
    assert_eq!(lobby_seats(&s, false).len(), 1);
    assert!(lobby_seats(&session_with(None), false).is_empty());
}

#[test]
fn the_countdown_rounds_up_and_never_shows_zero() {
    assert_eq!(countdown_number(180), 3);
    assert_eq!(countdown_number(121), 3);
    assert_eq!(countdown_number(120), 2);
    assert_eq!(countdown_number(1), 1);
    assert_eq!(countdown_number(0), 1);
}

#[test]
fn the_lobby_bottom_shows_the_countdown_or_the_hint() {
    let mut l = lobby(LobbyState::Countdown, 4, 0b11, Some(details(vec![], false)));
    l.countdown_ticks = 100;
    assert_eq!(lobby_bottom(&session_with(Some(l))), Some(LobbyBottom::Countdown(2)));
    let open = lobby(LobbyState::Open, 4, 0b11, Some(details(vec![], false)));
    assert_eq!(
        lobby_bottom(&session_with(Some(open))),
        Some(LobbyBottom::Hint {
            hint: LobbyHint::Ready,
            start_enabled: true
        })
    );
    assert_eq!(lobby_bottom(&session_with(None)), None);
}

#[test]
fn the_round_clock_counts_down_in_minutes_and_seconds() {
    let mut s = session_with(None);
    assert_eq!(round_clock(&s), None);
    s.world = Some(world(0, vec![]));
    assert_eq!(
        round_clock(&s),
        Some(RoundClock {
            minutes: 3,
            seconds: 0,
            urgent: false
        })
    );
    s.world = Some(world(10800 - 601, vec![]));
    s.phase = Phase::Playing;
    assert_eq!(
        round_clock(&s),
        Some(RoundClock {
            minutes: 0,
            seconds: 11,
            urgent: false
        })
    );
    s.world = Some(world(10800 - 600, vec![]));
    assert_eq!(
        round_clock(&s),
        Some(RoundClock {
            minutes: 0,
            seconds: 10,
            urgent: true
        })
    );
    s.world = Some(world(20000, vec![]));
    assert_eq!(
        round_clock(&s),
        Some(RoundClock {
            minutes: 0,
            seconds: 0,
            urgent: true
        })
    );
}

#[test]
fn sudden_death_is_announced_twenty_seconds_ahead() {
    let mut s = session_with(None);
    assert_eq!(sudden_death_notice(&s), SuddenDeathNotice::Hidden);
    s.world = Some(world(7200 - 1201, vec![]));
    assert_eq!(sudden_death_notice(&s), SuddenDeathNotice::Hidden);
    s.world = Some(world(7200 - 1200, vec![]));
    assert_eq!(sudden_death_notice(&s), SuddenDeathNotice::In(20));
    s.world = Some(world(7199, vec![]));
    assert_eq!(sudden_death_notice(&s), SuddenDeathNotice::In(1));
    s.world = Some(world(7200, vec![]));
    assert_eq!(sudden_death_notice(&s), SuddenDeathNotice::Now);
}

#[test]
fn standings_are_ordered_by_placement_then_id() {
    let rows = standings(&vec![
        PlayerResult { id: 3, placement: 2, score: 5 },
        PlayerResult { id: 1, placement: 1, score: 9 },
        PlayerResult { id: 0, placement: 2, score: 7 },
        PlayerResult { id: 2, placement: 3, score: 0 },
    ]);
    let order: Vec<(u8, u8)> = rows.iter().map(|r| (r.placement, r.id)).collect();
    assert_eq!(order, vec![(1, 1), (2, 0), (2, 3), (3, 2)]);
}

#[test]
fn the_results_screen_names_winner_reason_and_next_step() {
    let mut s = session_with(Some(lobby(LobbyState::MatchOver, 4, 0b11, Some(details(vec![], false)))));
    s.result = Some(MatchEnd {
        tick: 9,
        reason: EndReason::LastStanding,
        winner: Some(1),
        results: vec![
            PlayerResult { id: 0, placement: 2, score: 1 },
            PlayerResult { id: 1, placement: 1, score: 4 },
        ],
    });
    let v = results_view(&s);
    assert_eq!(v.winner, Some(1));
    assert_eq!(v.reason, Some(EndReason::LastStanding));
    assert_eq!(v.standings[0].id, 1);
    assert!(v.start_enabled);
    assert_eq!(v.hint, None);

    let mut few = lobby(LobbyState::MatchOver, 4, 0b1, Some(details(vec![], false)));
    few.players_connected = 1;
    let v = results_view(&session_with(Some(few)));
    assert_eq!(v.winner, None);
    assert_eq!(v.reason, None);
    assert!(v.standings.is_empty());
    assert_eq!(v.hint, Some(NextMatchHint::TooFewPlayers));

    let mut d = details(vec![], false);
    d.player_control = false;
    let v = results_view(&session_with(Some(lobby(LobbyState::MatchOver, 4, 0b11, Some(d)))));
    assert_eq!(v.hint, Some(NextMatchHint::ModeratorStarts));
}

#[test]
fn the_player_list_is_ordered_by_id_and_marks_the_local_player() {
    let mut s = session_with(Some(lobby(
        LobbyState::Running,
        4,
        0b111,
        Some(details(vec![seat(true, false, false, "A"), seat(true, false, false, "B")], false)),
    )));
    s.my_id = Some(0);
    s.world = Some(world(0, vec![player(2, true), player(0, false), player(1, true)]));
    let rows = sidebar_rows(&s, true);
    let ids: Vec<u8> = rows.iter().map(|r| r.player.id).collect();
    assert_eq!(ids, vec![0, 1, 2]);
    assert_eq!(rows[0].tag, PlayerTag::YourBot);
    assert!(rows[0].me);
    assert!(!rows[0].player.alive);
    assert_eq!(rows[1].name, "B");
    assert_eq!(rows[1].tag, PlayerTag::Plain);
    assert_eq!(rows[2].name, "bot-2");
    assert_eq!(sidebar_rows(&s, false)[0].tag, PlayerTag::You);
}

#[test]
fn the_game_menu_offers_match_control_only_to_players_in_a_match() {
    let mut v = GameMenuView {
        playing: true,
        paused: false,
        bot: false,
        sound: true,
        confirm_abort: false,
        player_control: true,
    };
    assert_eq!(
        game_menu_items(&v),
        vec![
            Click::CloseMenu,
            Click::Pause,
            Click::Abort,
            Click::ToggleBot,
            Click::ToggleSound,
            Click::Disconnect
        ]
    );
    v.paused = true;
    assert_eq!(game_menu_items(&v)[1], Click::Resume);
    v.player_control = false;
    assert_eq!(
        game_menu_items(&v),
        vec![Click::CloseMenu, Click::ToggleBot, Click::ToggleSound, Click::Disconnect]
    );
}

#[test]
fn the_menu_starts_from_the_settings_and_takes_typing() {
    let st = Settings {
        name: "".to_string(),
        host: "example.org".to_string(),
        port: 5000,
        sound: true,
        bot: true,
    };
    let mut m = menu_state(&st, None);
    assert_eq!(m.focus, 0);
    assert_eq!(m.address.value, "example.org:5000");
    assert_eq!(m.name.max_chars, 24);
    assert_eq!(m.address.max_chars, 64);
    assert!(m.bot);
    assert!(!m.on_input(&['A', 'n'], false, false, false));
    assert_eq!(m.name.value, "An");
    assert!(m.on_input(&['x'], true, false, true));
    assert_eq!(m.focus, 1);
    assert_eq!(m.address.value, "example.org:5000x");
    assert_eq!(m.name.value, "An");
    m.on_input(&[], false, true, false);
    assert_eq!(m.address.value, "example.org:5000");
}
