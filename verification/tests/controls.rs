use bomber::controls::{
    autostart_due, celebration, countdown_value, cue_sounds, first_focus, game_screen, next_focus,
    on_click, on_keys, pace, player_name, prepare_connect, request, request_seat_bot,
    results_shown_at, steerer, BoardOverlay, Command, ConnectError, GameScreen, KeyOutcome, Keys,
    Overlay, Refusal, SoundCall, Steerer,
};
use bomber::domain::{Action, LobbyState, PowerupKind, Tile};
use bomber::frames::{EndReason, MatchEnd};
use bomber::lobby_status::{LobbyDetails, LobbyStatus};
use bomber::screens::Click;
use bomber::session::{Cue, Phase, Request, Session};
use bomber::settings::Settings;
use bomber::sound::Sfx;
use bomber::world::{FxEvent, World};

const NO_KEYS: Keys = Keys {
    escape: false,
    toggle_bot: false,
    toggle_sound: false,
    start: false,
    pause: false,
};

const CLOSED: Overlay = Overlay {
    menu_open: false,
    confirm_abort: false,
};

fn lobby(state: LobbyState, paused: bool, player_control: bool) -> LobbyStatus {
    LobbyStatus {
        tick: 1,
        state,
        players_connected: 2,
        max_players: 4,
        slot_mask: 0b11,
        countdown_ticks: 0,
        details: Some(LobbyDetails {
            paused,
            can_start: true,
            player_control,
            server_bots: true,
            min_players: 2,
            seats: vec![],
        }),
    }
}

fn session(phase: Phase, l: Option<LobbyStatus>) -> Session {
    let mut s = Session::new("Me".to_string(), 0);
    s.phase = phase;
    s.lobby = l;
    s
}

fn empty_world() -> World {
    World {
        width: 1,
        height: 1,
        tiles: vec![Tile::Empty],
        players: vec![],
        bombs: vec![],
        flames: vec![],
        powerups: vec![],
        ticks_remaining: 0,
        tick: 0,
    }
}

#[test]
fn escape_opens_the_menu_during_a_match_and_skips_the_frame() {
    let mut o = Overlay {
        menu_open: false,
        confirm_abort: true,
    };
    let keys = Keys { escape: true, ..NO_KEYS };
    assert_eq!(on_keys(Phase::Playing, false, &mut o, keys), KeyOutcome::MenuOpened);
    assert_eq!(
        o,
        Overlay {
            menu_open: true,
            confirm_abort: false
        }
    );
    assert_eq!(
        on_keys(Phase::Playing, false, &mut o, keys),
        KeyOutcome::Continue(Some(Click::CloseMenu))
    );
}

#[test]
fn escape_leaves_the_lobby_and_the_waiting_screens() {
    let keys = Keys { escape: true, ..NO_KEYS };
    for phase in [Phase::Connecting, Phase::Lost, Phase::Lobby] {
        let mut o = CLOSED;
        assert_eq!(
            on_keys(phase, false, &mut o, keys),
            KeyOutcome::Continue(Some(Click::Disconnect))
        );
        assert_eq!(o, CLOSED);
    }
}

#[test]
fn enter_starts_and_p_pauses_unless_the_menu_is_open() {
    let mut o = CLOSED;
    let enter = Keys { start: true, ..NO_KEYS };
    let p = Keys { pause: true, ..NO_KEYS };
    assert_eq!(on_keys(Phase::Lobby, false, &mut o, enter), KeyOutcome::Continue(Some(Click::Start)));
    assert_eq!(on_keys(Phase::MatchOver, false, &mut o, enter), KeyOutcome::Continue(Some(Click::Start)));
    assert_eq!(on_keys(Phase::Playing, false, &mut o, enter), KeyOutcome::Continue(None));
    assert_eq!(on_keys(Phase::Playing, false, &mut o, p), KeyOutcome::Continue(Some(Click::Pause)));
    assert_eq!(on_keys(Phase::Playing, true, &mut o, p), KeyOutcome::Continue(Some(Click::Resume)));
    let mut open = Overlay {
        menu_open: true,
        confirm_abort: false,
    };
    assert_eq!(on_keys(Phase::Playing, false, &mut open, p), KeyOutcome::Continue(None));
}

#[test]
fn a_later_key_wins() {
    let mut o = CLOSED;
    let keys = Keys {
        toggle_bot: true,
        toggle_sound: true,
        ..NO_KEYS
    };
    assert_eq!(on_keys(Phase::Playing, false, &mut o, keys), KeyOutcome::Continue(Some(Click::ToggleSound)));
    let keys = Keys {
        toggle_bot: true,
        start: true,
        ..NO_KEYS
    };
    assert_eq!(on_keys(Phase::Lobby, false, &mut o, keys), KeyOutcome::Continue(Some(Click::Start)));
}

#[test]
fn abort_takes_two_clicks() {
    let mut o = Overlay {
        menu_open: true,
        confirm_abort: false,
    };
    assert_eq!(on_click(&mut o, Click::Abort), Command::Nothing);
    assert!(o.confirm_abort);
    assert_eq!(on_click(&mut o, Click::Abort), Command::Request(Action::Abort));
    assert_eq!(o, CLOSED);
}

#[test]
fn clicks_become_commands() {
    let mut o = Overlay {
        menu_open: true,
        confirm_abort: true,
    };
    assert_eq!(on_click(&mut o, Click::ToggleBot), Command::ToggleBot);
    assert_eq!(on_click(&mut o, Click::Start), Command::Request(Action::Start));
    assert_eq!(
        on_click(&mut o, Click::SeatBot { seat: 2, enabled: true }),
        Command::SeatBot { seat: 2, enabled: true }
    );
    assert_eq!(on_click(&mut o, Click::CloseMenu), Command::Nothing);
    assert_eq!(o, CLOSED);
}

#[test]
fn requests_go_out_only_with_player_control() {
    let mut o = CLOSED;
    let mut s = session(Phase::Lobby, Some(lobby(LobbyState::Open, false, false)));
    assert_eq!(request(&mut s, &mut o, Action::Start), Err(Refusal::NoPlayerControl));
    assert!(s.queued().is_empty());

    let mut s = session(Phase::Lobby, Some(lobby(LobbyState::Countdown, false, true)));
    assert_eq!(request(&mut s, &mut o, Action::Start), Err(Refusal::CannotStart));
    assert!(s.queued().is_empty());

    let mut s = session(Phase::Lobby, Some(lobby(LobbyState::Open, false, true)));
    assert_eq!(request(&mut s, &mut o, Action::Start), Ok(()));
    assert_eq!(s.queued()[0], Request::Match(Action::Start));
}

#[test]
fn pause_closes_the_menu() {
    let mut o = Overlay {
        menu_open: true,
        confirm_abort: false,
    };
    let mut s = session(Phase::Playing, Some(lobby(LobbyState::Running, false, true)));
    assert_eq!(request(&mut s, &mut o, Action::Pause), Ok(()));
    assert!(!o.menu_open);
}

#[test]
fn seat_bots_change_only_when_the_server_allows() {
    let mut s = session(Phase::Lobby, Some(lobby(LobbyState::Open, false, true)));
    assert_eq!(request_seat_bot(&mut s, 3, true), Ok(()));
    assert_eq!(s.queued()[0], Request::SeatBot { seat: 3, enabled: true });
    let mut s = session(Phase::Lobby, Some(lobby(LobbyState::Locked, false, true)));
    assert_eq!(request_seat_bot(&mut s, 3, true), Err(Refusal::CannotChangeBots));
    assert!(s.queued().is_empty());
}

#[test]
fn the_bot_steers_only_a_running_match_it_can_see() {
    let mut s = session(Phase::Playing, Some(lobby(LobbyState::Running, false, true)));
    assert_eq!(steerer(&s, true, false), Steerer::Keys);
    s.world = Some(empty_world());
    s.my_id = Some(0);
    assert_eq!(steerer(&s, true, true), Steerer::Bot);
    assert_eq!(steerer(&s, false, false), Steerer::Keys);
    assert_eq!(steerer(&s, false, true), Steerer::Nobody);
    s.lobby = Some(lobby(LobbyState::Running, true, true));
    assert_eq!(steerer(&s, true, false), Steerer::Nobody);
    s.phase = Phase::MatchOver;
    assert_eq!(steerer(&s, false, false), Steerer::Nobody);
}

#[test]
fn one_packet_per_tick_and_no_bursts() {
    assert_eq!(pace(0, 500), (500, false));
    assert_eq!(pace(500, 500), (0, true));
    assert_eq!(pace(900, 1200), (1000, true));
    assert_eq!(pace(0, 60000), (1000, true));
    assert_eq!(pace(0, 1000), (0, true));
}

#[test]
fn only_the_first_explosion_of_a_frame_is_heard() {
    let boom = Cue::Fx(FxEvent::Explosion { x: 1, y: 1, up: 1, down: 1, left: 1, right: 1 });
    let cues = vec![
        boom,
        Cue::Fx(FxEvent::PowerupTaken { player: 2, x: 1, y: 1, kind: PowerupKind::Flame }),
        boom,
        Cue::Fx(FxEvent::PowerupTaken { player: 1, x: 1, y: 1, kind: PowerupKind::Speed }),
        Cue::Fx(FxEvent::CrateBroken { x: 1, y: 1 }),
        Cue::Fx(FxEvent::BombPlaced { x: 1, y: 1 }),
        Cue::Fx(FxEvent::PlayerDied { player: 1, x: 1, y: 1 }),
        Cue::CountdownSecond(2),
        Cue::MatchStarted,
        Cue::MatchEnded,
    ];
    assert_eq!(
        cue_sounds(&cues, Some(1)),
        vec![
            SoundCall { sfx: Sfx::Explosion, volume: 80 },
            SoundCall { sfx: Sfx::Pickup, volume: 35 },
            SoundCall { sfx: Sfx::Pickup, volume: 100 },
            SoundCall { sfx: Sfx::BombPlaced, volume: 50 },
            SoundCall { sfx: Sfx::Death, volume: 100 },
            SoundCall { sfx: Sfx::Beep, volume: 100 },
            SoundCall { sfx: Sfx::Go, volume: 100 },
            SoundCall { sfx: Sfx::Win, volume: 100 },
        ]
    );
}

#[test]
fn a_name_is_needed_to_connect() {
    assert_eq!(player_name("  Anna \t"), Some("Anna".to_string()));
    assert_eq!(player_name("   "), None);
    let mut st = Settings {
        name: "Old".to_string(),
        host: "127.0.0.1".to_string(),
        port: 47800,
        sound: true,
        bot: false,
    };
    assert_eq!(prepare_connect(&mut st, " ", "example.org", true), Err(ConnectError::NameMissing));
    assert_eq!(st.name, "Old");
    assert_eq!(st.host, "127.0.0.1");
    assert_eq!(prepare_connect(&mut st, " Bea ", "example.org:5000", true), Ok("Bea".to_string()));
    assert_eq!(st.name, "Bea");
    assert_eq!(st.host, "example.org");
    assert_eq!(st.port, 5000);
    assert!(st.bot);
}

#[test]
fn the_menu_focus_starts_in_the_empty_name_and_tab_alternates() {
    assert_eq!(first_focus(""), 0);
    assert_eq!(first_focus("Anna"), 1);
    assert_eq!(next_focus(0), 1);
    assert_eq!(next_focus(1), 0);
}

#[test]
fn the_game_screen_follows_the_phase() {
    let s = session(Phase::Connecting, None);
    assert_eq!(game_screen(&s, false, 4000), GameScreen::Connecting { slow: false });
    assert_eq!(game_screen(&s, false, 4001), GameScreen::Connecting { slow: true });
    assert_eq!(game_screen(&session(Phase::Lost, None), false, 0), GameScreen::Lost);
    assert_eq!(game_screen(&session(Phase::Lobby, None), false, 0), GameScreen::Lobby);
    let mut s = session(Phase::MatchOver, None);
    assert_eq!(game_screen(&s, false, 0), GameScreen::ResultsOnly);
    assert_eq!(game_screen(&s, true, 0), GameScreen::WaitingForBoard);
    s.world = Some(empty_world());
    assert_eq!(game_screen(&s, false, 0), GameScreen::Board { overlay: BoardOverlay::Results });
    let mut s = session(Phase::Playing, Some(lobby(LobbyState::Running, true, true)));
    s.world = Some(empty_world());
    assert_eq!(game_screen(&s, false, 0), GameScreen::Board { overlay: BoardOverlay::Pause });
    assert_eq!(game_screen(&s, true, 0), GameScreen::Board { overlay: BoardOverlay::Nothing });
}

#[test]
fn countdown_values_change_once_a_second() {
    let mut l = lobby(LobbyState::Countdown, false, true);
    l.countdown_ticks = 179;
    assert_eq!(countdown_value(&session(Phase::Lobby, Some(l.clone()))), Some(3));
    l.countdown_ticks = 0;
    assert_eq!(countdown_value(&session(Phase::Lobby, Some(l))), Some(0));
    assert_eq!(countdown_value(&session(Phase::Lobby, None)), None);
}

#[test]
fn autostart_waits_for_the_results_to_be_read() {
    let s = session(Phase::MatchOver, Some(lobby(LobbyState::MatchOver, false, true)));
    assert!(autostart_due(&s, true, false, 10_000, 0, None));
    assert!(!autostart_due(&s, false, false, 10_000, 0, None));
    assert!(!autostart_due(&s, true, true, 10_000, 0, None));
    assert!(!autostart_due(&s, true, false, 10_000, 8_000, None));
    assert!(!autostart_due(&s, true, false, 10_000, 0, Some(4_000)));
    assert!(autostart_due(&s, true, false, 10_000, 0, Some(3_999)));
    let paused = session(Phase::MatchOver, Some(lobby(LobbyState::MatchOver, true, true)));
    assert!(!autostart_due(&paused, true, false, 10_000, 0, None));
}

#[test]
fn results_time_and_confetti() {
    let mut s = session(Phase::MatchOver, None);
    assert_eq!(results_shown_at(&s, None, 7), Some(7));
    assert_eq!(results_shown_at(&s, Some(3), 7), Some(3));
    assert_eq!(results_shown_at(&session(Phase::Playing, None), None, 7), None);
    s.result = Some(MatchEnd {
        tick: 1,
        reason: EndReason::LastStanding,
        winner: Some(2),
        results: vec![],
    });
    assert_eq!(celebration(&s, Some(100), 120), None, "no board");
    s.world = Some(empty_world());
    assert_eq!(celebration(&s, Some(100), 120), Some(2));
    assert_eq!(celebration(&s, Some(100), 150), None);
    assert_eq!(celebration(&s, None, 150), None);
}

#[test]
fn fast_frames_never_send_faster_than_the_tick_rate() {
    // 240 frames per second for one second: 250 units each.
    let mut owed = 0;
    let mut sent = 0;
    for _ in 0..240 {
        let (rest, due) = pace(owed, 250);
        owed = rest;
        if due {
            sent += 1;
        }
    }
    assert_eq!(sent, 60);
    assert!(owed <= 1000);
    // A stall counts for 0.1 s and still sends only once.
    let (rest, due) = pace(0, 600_000);
    assert!(due);
    assert_eq!(rest, 1000);
}
