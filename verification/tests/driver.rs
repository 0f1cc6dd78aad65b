use bomber::domain::{Action, Direction, LobbyState, Rules, Tile};
use bomber::driver::{BotFactory, BuiltinBots, Driver, SeatBot};
use bomber::frames::{EndReason, MatchEnd, MatchInit, ServerFrame};
use bomber::lobby_status::LobbyStatus;
use bomber::world::{FlameSnapshot, Keyframe, PlayerView};

fn me(x: u8, y: u8) -> PlayerView {
    PlayerView {
        id: 0,
        alive: true,
        moving: false,
        x,
        y,
        dir: Direction::Down,
        move_progress: 0,
        bombs_max: 1,
        flame: 2,
        speed: 0,
        score: 0,
    }
}

fn init(match_id: u32) -> ServerFrame {
    ServerFrame::MatchInit(MatchInit {
        tick: 0,
        match_id,
        your_player_id: 0,
        rules: Rules::default(),
    })
}

/// A corridor three cells high with walls around, our player in its middle
/// standing in a flame.
fn burning_corridor(tick: u32) -> ServerFrame {
    let (w, h) = (7u8, 3u8);
    let mut cells = vec![Tile::Empty; w as usize * h as usize];
    for y in 0..h as usize {
        for x in 0..w as usize {
            if x == 0 || y == 0 || x == w as usize - 1 || y == h as usize - 1 {
                cells[y * w as usize + x] = Tile::Solid;
            }
        }
    }
    ServerFrame::Keyframe(Keyframe {
        tick,
        width: w,
        height: h,
        cells,
        players: vec![me(3, 1)],
        bombs: vec![],
        flames: vec![FlameSnapshot { x: 3, y: 1, ticks_remaining: 10 }],
        powerups: vec![],
        ticks_remaining: 10000,
    })
}

fn lobby(state: LobbyState) -> ServerFrame {
    ServerFrame::LobbyStatus(LobbyStatus {
        tick: 0,
        state,
        players_connected: 1,
        max_players: 4,
        slot_mask: 1,
        countdown_ticks: 0,
        details: None,
    })
}

#[test]
fn a_driver_without_a_match_stands_still() {
    let mut d = Driver::new();
    assert_eq!(d.act(0), Action::Idle);
    d.observe(&burning_corridor(5));
    assert_eq!(d.act(1), Action::Idle, "a state without MATCH_INIT is no match");
}

#[test]
fn a_driver_in_a_flame_steps_out_the_first_way_it_searches() {
    let mut d = Driver::new();
    d.observe(&init(1));
    d.observe(&burning_corridor(5));
    // Up and down are walls; left comes before right.
    assert_eq!(d.act(0), Action::Left);
}

#[test]
fn the_lobby_and_the_match_end_stop_the_driver() {
    let mut d = Driver::new();
    d.observe(&init(1));
    d.observe(&burning_corridor(5));
    d.observe(&ServerFrame::MatchEnd(MatchEnd {
        tick: 6,
        reason: EndReason::Aborted,
        winner: None,
        results: vec![],
    }));
    assert_eq!(d.act(0), Action::Idle);

    let mut d = Driver::new();
    d.observe(&init(1));
    d.observe(&burning_corridor(5));
    d.observe(&lobby(LobbyState::Open));
    assert_eq!(d.act(0), Action::Idle);
}

#[test]
fn the_factory_seats_a_fresh_builtin_bot() {
    let mut bot = BuiltinBots.create(2);
    assert_eq!(bot.act(0), Action::Idle);
    bot.observe(&init(3));
    bot.observe(&burning_corridor(1));
    assert_eq!(bot.act(1), Action::Left);
}
