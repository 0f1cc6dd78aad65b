use bomber::domain::{Action, LobbyState, Rules, Tile};
use bomber::frames::{Assigned, Delta, EndReason, MatchEnd, MatchInit, ServerFrame};
use bomber::lobby_status::{LobbyDetails, LobbyStatus, SeatStatus};
use bomber::session::{Cue, Outgoing, Phase, Request, Session, REQUEST_COPIES};
use bomber::world::{DeltaRecord, Keyframe};

fn session() -> Session {
    Session::new("Test".to_string(), 0)
}

fn lobby(state: LobbyState, can_start: bool) -> ServerFrame {
    ServerFrame::LobbyStatus(LobbyStatus {
        tick: 1,
        state,
        players_connected: 2,
        max_players: 4,
        slot_mask: 0b11,
        countdown_ticks: if state == LobbyState::Countdown {
            150
        } else {
            0
        },
        details: Some(LobbyDetails {
            paused: false,
            can_start,
            player_control: true,
            server_bots: true,
            min_players: 2,
            seats: (0..4)
                .map(|i| SeatStatus {
                    occupied: i < 2,
                    stale: false,
                    bot: false,
                    bot_fill: false,
                    name: format!("P{i}"),
                })
                .collect(),
        }),
    })
}

fn init(match_id: u32) -> ServerFrame {
    ServerFrame::MatchInit(MatchInit {
        tick: 0,
        match_id,
        your_player_id: 1,
        rules: Rules::default(),
    })
}

fn keyframe(tick: u32) -> ServerFrame {
    ServerFrame::Keyframe(Keyframe {
        tick,
        width: 5,
        height: 5,
        cells: vec![Tile::Empty; 25],
        players: vec![],
        bombs: vec![],
        flames: vec![],
        powerups: vec![],
        ticks_remaining: 100,
    })
}

fn delta(tick: u32, base: u32) -> ServerFrame {
    ServerFrame::Delta(Delta {
        tick,
        base_tick: base,
        records: vec![DeltaRecord::Timer {
            ticks_remaining: 99,
        }],
    })
}

#[test]
fn joining_moves_from_connecting_to_lobby() {
    let mut s = session();
    assert_eq!(s.phase, Phase::Connecting);
    s.on_frame(
        ServerFrame::Assigned(Assigned {
            tick: 0,
            player_id: 1,
            tick_rate: 60,
            max_players: 4,
        }),
        100,
    );
    assert_eq!(s.phase, Phase::Lobby);
    assert_eq!(s.my_id, Some(1));
    s.on_frame(lobby(LobbyState::Open, true), 200);
    assert!(s.can_request_start());
    assert!(s.can_change_bots());
    assert_eq!(s.name_of(0), "P0");
}

#[test]
fn a_newer_seat_bot_choice_replaces_a_queued_one() {
    let mut s = session();
    s.request_seat_bot(2, true);
    s.request_seat_bot(3, true);
    s.request_seat_bot(2, false);
    let queued = s.queued();
    assert_eq!(queued.len(), 2 * REQUEST_COPIES);
    assert!(!queued.contains(&Request::SeatBot {
        seat: 2,
        enabled: true
    }));
}

#[test]
fn a_delta_applies_only_on_its_base_tick() {
    let mut s = session();
    s.on_frame(init(1), 0);
    s.on_frame(keyframe(30), 0);
    s.on_frame(delta(32, 31), 0); // gap: 31 missing
    assert_eq!(s.at_tick, Some(30));
    s.on_frame(delta(31, 30), 0);
    assert_eq!(s.at_tick, Some(31));
    assert_eq!(s.world.as_ref().unwrap().ticks_remaining, 99);
}

#[test]
fn a_repeated_match_init_keeps_the_state() {
    let mut s = session();
    s.on_frame(init(7), 0);
    s.on_frame(keyframe(0), 0);
    s.on_frame(init(7), 0);
    assert!(s.world.is_some(), "same match id: keep the state");
    s.on_frame(init(8), 0);
    assert!(s.world.is_none(), "a new match starts clean");
    let starts = s.cues.iter().filter(|c| **c == Cue::MatchStarted).count();
    assert_eq!(starts, 2);
}

#[test]
fn a_stale_keyframe_does_not_rewind() {
    let mut s = session();
    s.on_frame(init(1), 0);
    s.on_frame(keyframe(60), 0);
    s.on_frame(keyframe(30), 0);
    assert_eq!(s.at_tick, Some(60));
}

#[test]
fn match_end_shows_results_until_the_lobby_reopens() {
    let mut s = session();
    s.on_frame(init(1), 0);
    s.on_frame(keyframe(0), 0);
    s.on_frame(
        ServerFrame::MatchEnd(MatchEnd {
            tick: 5,
            reason: EndReason::Aborted,
            winner: None,
            results: vec![],
        }),
        0,
    );
    assert_eq!(s.phase, Phase::MatchOver);
    s.on_frame(lobby(LobbyState::MatchOver, false), 0);
    assert_eq!(s.phase, Phase::MatchOver, "results stay up");
    assert!(s.can_request_start(), "Start means next match");
    s.on_frame(lobby(LobbyState::Countdown, false), 0);
    assert_eq!(s.phase, Phase::Lobby);
    assert!(s.result.is_none());
    assert!(s.cues.contains(&Cue::CountdownSecond(3)));
}

#[test]
fn silence_means_lost() {
    let mut s = session();
    s.on_frame(lobby(LobbyState::Open, true), 0);
    s.pump(1000);
    assert_eq!(s.phase, Phase::Lobby);
    s.pump(3500);
    assert_eq!(s.phase, Phase::Lost);
}

#[test]
fn a_new_session_says_hello_and_repeats_it_until_seated() {
    let mut s = session();
    assert_eq!(s.outbox, vec![Outgoing::Hello]);
    s.pump(400);
    assert_eq!(s.outbox.len(), 1);
    s.pump(500);
    assert_eq!(s.outbox, vec![Outgoing::Hello, Outgoing::Hello]);
}

#[test]
fn a_request_goes_out_before_the_move_and_idle_is_a_heartbeat() {
    let mut s = session();
    s.on_frame(
        ServerFrame::Assigned(Assigned {
            tick: 0,
            player_id: 2,
            tick_rate: 60,
            max_players: 4,
        }),
        0,
    );
    s.outbox.clear();
    s.request(Action::Start);
    s.request(Action::Start);
    assert_eq!(s.queued().len(), REQUEST_COPIES, "a duplicate replaces the queued one");
    s.send_tick(Action::Left, 10);
    assert_eq!(
        s.outbox,
        vec![Outgoing::Action {
            player: 2,
            action: Action::Start
        }]
    );
    s.send_tick(Action::Left, 20);
    s.send_tick(Action::Left, 30);
    s.send_tick(Action::Left, 40);
    assert_eq!(
        s.outbox.last(),
        Some(&Outgoing::Action {
            player: 2,
            action: Action::Left
        })
    );
    let sent = s.outbox.len();
    s.send_tick(Action::Idle, 100);
    assert_eq!(s.outbox.len(), sent, "idle is not sent again so soon");
    s.send_tick(Action::Idle, 540);
    assert_eq!(
        s.outbox.last(),
        Some(&Outgoing::Action {
            player: 2,
            action: Action::Idle
        })
    );
}

#[test]
fn an_unknown_seat_falls_back_to_the_bot_name() {
    let s = session();
    assert_eq!(s.name_of(3), "bot-3");
    assert_eq!(s.name_of(12), "bot-12");
    assert!(!s.can_request_start());
    assert!(!s.can_change_bots());
    assert!(!s.paused());
    assert_eq!(s.rules(), Rules::default());
}

#[test]
fn the_lobby_status_sets_the_phase_and_its_cues() {
    let mut s = session();
    s.on_frame(init(1), 0);
    s.on_frame(keyframe(0), 0);
    s.cues.clear();
    s.on_frame(lobby(LobbyState::MatchOver, false), 0);
    assert_eq!(s.phase, Phase::MatchOver);
    assert_eq!(s.cues, vec![Cue::MatchEnded], "an end heard only from the lobby");
    assert!(s.world.is_some(), "the board stays under the results");
    s.on_frame(lobby(LobbyState::Open, true), 0);
    assert_eq!(s.phase, Phase::Lobby);
    assert!(s.world.is_none() && s.at_tick.is_none() && s.result.is_none());
    s.cues.clear();
    s.on_frame(lobby(LobbyState::Countdown, false), 0);
    s.on_frame(lobby(LobbyState::Countdown, false), 0);
    assert_eq!(s.cues, vec![Cue::CountdownSecond(3)], "each second once");
}
