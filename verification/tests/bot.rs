use bomber::bot::{
    blast_cells, remaining, danger_intervals, threat_cells, without_bomb, Bot, Cell, Sight, Situation, BOMB_COOLDOWN_TICKS,
    MOVE_SETTLE_TICKS, SAFETY_MARGIN_TICKS,
};
use bomber::domain::{Action, Direction, PowerupKind, Rules, Tile};
use bomber::world::{BombView, FlameView, PlayerView, PowerupView, World};

const MOVES: [Action; 4] = [Action::Up, Action::Down, Action::Left, Action::Right];

fn is_bomb(a: Action) -> bool {
    without_bomb(a).is_some()
}

fn is_combo(a: Action) -> bool {
    is_bomb(a) && a != Action::Bomb
}

/// Free field with a wall all around.
fn open_field(w: u8, h: u8) -> World {
    let mut tiles = vec![Tile::Empty; w as usize * h as usize];
    for y in 0..h as usize {
        for x in 0..w as usize {
            if x == 0 || y == 0 || x == w as usize - 1 || y == h as usize - 1 {
                tiles[y * w as usize + x] = Tile::Solid;
            }
        }
    }
    World::from_tiles(w, h, tiles)
}

fn player(id: u8, x: u8, y: u8, flame: u8) -> PlayerView {
    PlayerView {
        id,
        alive: true,
        moving: false,
        x,
        y,
        dir: Direction::Down,
        move_progress: 0,
        bombs_max: 1,
        flame,
        speed: 0,
        score: 0,
    }
}

fn bomb(id: u16, owner: u8, x: u8, y: u8, fuse: u16, seen: u32) -> BombView {
    BombView {
        id,
        owner,
        x,
        y,
        fuse,
        seen_tick: seen,
    }
}

/// Seconds on the wall clock, in the bot's clock units (1/600 s).
fn clock(seconds: f64) -> u64 {
    (seconds * 600.0).round() as u64
}

fn situation(
    world: &World,
    rules: Rules,
    at_tick: Option<u32>,
    match_id: Option<u32>,
    now: f64,
) -> Situation<'_> {
    Situation {
        world,
        rules,
        my_id: 0,
        at_tick,
        match_id,
        now: clock(now),
    }
}

fn decide(bot: &mut Bot, world: &World) -> Action {
    bot.decide(&situation(world, Rules::default(), None, None, 0.0))
}

fn starts_at(iv: &bomber::bot::Intervals, c: Cell) -> Vec<i64> {
    iv.windows_at(c).iter().map(|w| w.0).collect()
}

fn value_at(vals: &[(Cell, i128)], c: Cell) -> i128 {
    vals.iter().find(|(cell, _)| *cell == c).map(|(_, v)| *v).unwrap()
}

#[test]
fn flees_from_flame() {
    let mut w = open_field(7, 3);
    w.insert_player(player(0, 3, 1, 2));
    w.insert_flame(FlameView {
        x: 3,
        y: 1,
        ticks: 10,
        seen_tick: 0,
    });
    assert!(MOVES.contains(&decide(&mut Bot::default(), &w)));
}

#[test]
fn places_a_combo_bomb_next_to_a_crate_with_an_escape() {
    let mut w = open_field(7, 5);
    w.set_tile_for_test(4, 2, Tile::Soft);
    w.insert_player(player(0, 3, 2, 2));
    assert!(is_combo(decide(&mut Bot::default(), &w)));
}

#[test]
fn waits_when_no_move_is_safe() {
    let mut w = open_field(3, 3);
    w.insert_player(player(0, 1, 1, 2));
    w.insert_flame(FlameView {
        x: 1,
        y: 1,
        ticks: 10,
        seen_tick: 0,
    });
    assert_eq!(decide(&mut Bot::default(), &w), Action::Idle);
}

#[test]
fn walks_towards_a_distant_crate() {
    let mut w = open_field(9, 3);
    w.set_tile_for_test(6, 1, Tile::Soft);
    w.insert_player(player(0, 2, 1, 2));
    assert_eq!(decide(&mut Bot::default(), &w), Action::Right);
}

#[test]
fn a_dead_player_does_nothing() {
    let mut w = open_field(5, 3);
    let mut me = player(0, 2, 1, 2);
    me.alive = false;
    w.insert_player(me);
    assert_eq!(decide(&mut Bot::default(), &w), Action::Idle);
}

#[test]
fn no_bomb_without_an_escape() {
    let mut w = open_field(4, 3);
    w.set_tile_for_test(2, 1, Tile::Soft);
    w.insert_player(player(0, 1, 1, 3));
    assert!(!is_bomb(decide(&mut Bot::default(), &w)));
}

#[test]
fn a_chain_reaction_shortens_the_fuse() {
    let mut w = open_field(9, 3);
    w.insert_player(player(1, 1, 1, 2));
    w.insert_bomb(bomb(1, 1, 1, 1, 2, 0));
    w.insert_bomb(bomb(2, 1, 3, 1, 100, 0));
    let iv = danger_intervals(&w, &Rules::default(), None, 0);
    let starts = starts_at(&iv, (5, 1));
    assert_eq!(
        *starts.iter().min().unwrap(),
        (2 - SAFETY_MARGIN_TICKS).max(0)
    );
    assert!(starts.iter().all(|s| *s < 90));
}

#[test]
fn a_stale_fuse_is_aged() {
    let mut w = open_field(9, 3);
    w.insert_player(player(1, 1, 1, 2));
    w.insert_bomb(bomb(1, 1, 1, 1, 100, 0));
    let fresh = danger_intervals(&w, &Rules::default(), None, 0);
    let aged = danger_intervals(&w, &Rules::default(), None, 95);
    assert_eq!(
        starts_at(&fresh, (2, 1)).iter().min().copied(),
        Some(100 - SAFETY_MARGIN_TICKS)
    );
    assert_eq!(starts_at(&aged, (2, 1)).iter().min().copied(), Some(0));
}

#[test]
fn uses_the_owners_current_radius() {
    let mut w = open_field(9, 3);
    w.insert_player(player(0, 5, 1, 2));
    w.insert_player(player(1, 1, 1, 5));
    w.insert_bomb(bomb(1, 1, 1, 1, 50, 0));
    assert_eq!(decide(&mut Bot::default(), &w), Action::Right);
}

#[test]
fn an_unknown_owner_is_assumed_at_max_flame() {
    let mut w = open_field(9, 3);
    w.insert_bomb(bomb(1, 9, 1, 1, 50, 0));
    let iv = danger_intervals(&w, &Rules::default(), None, 0);
    assert!(iv.covers((7, 1)));
}

#[test]
fn runs_through_a_bomb_line_when_there_is_time() {
    let mut w = open_field(9, 5);
    for x in 1..7 {
        w.set_tile_for_test(x, 2, Tile::Solid);
    }
    w.insert_player(player(0, 3, 1, 2));
    w.insert_player(player(1, 1, 3, 6));
    w.insert_bomb(bomb(1, 1, 1, 1, 60, 0));
    assert_eq!(decide(&mut Bot::default(), &w), Action::Right);
}

#[test]
fn no_bomb_when_the_escape_is_too_slow() {
    let mut tiles = vec![Tile::Solid; 14 * 3];
    for x in 1..13 {
        tiles[14 + x] = Tile::Empty;
    }
    tiles[14 + 12] = Tile::Soft;
    let mut w = World::from_tiles(14, 3, tiles);
    w.insert_player(player(0, 11, 1, 6));
    let slow = Rules {
        bomb_fuse_ticks: 30,
        ..Rules::default()
    };
    let mut bot = Bot::default();
    assert!(!is_bomb(bot.decide(&situation(&w, slow, None, None, 0.0))));
    let mut bot = Bot::default();
    assert!(is_combo(bot.decide(&situation(
        &w,
        Rules::default(),
        None,
        None,
        0.0
    ))));
}

#[test]
fn a_bomb_is_not_repeated_blindly() {
    let mut w = open_field(7, 5);
    w.set_tile_for_test(4, 2, Tile::Soft);
    w.insert_player(player(0, 3, 2, 2));
    let mut bot = Bot::default();
    let at = |t| situation(&w, Rules::default(), Some(t), None, 0.0);
    let first = bot.decide(&at(100));
    assert!(is_combo(first));
    assert_eq!(bot.decide(&at(100)), without_bomb(first).unwrap());
    assert!(
        !is_bomb(bot.decide(&at(102))),
        "cooldown: do not bomb again"
    );
    assert!(is_combo(bot.decide(&at(100 + BOMB_COOLDOWN_TICKS))));
}

#[test]
fn replay_follows_the_plan_by_wall_clock() {
    let mut w = open_field(7, 5);
    w.set_tile_for_test(4, 2, Tile::Soft);
    w.insert_player(player(0, 3, 2, 2));
    let mut bot = Bot::default();
    let at = |now| situation(&w, Rules::default(), Some(100), None, now);
    assert_eq!(bot.decide(&at(10.0)), Action::UpBomb);
    assert_eq!(bot.decide(&at(10.0)), Action::Up);
    assert_eq!(bot.decide(&at(10.2)), Action::Left);
    let step_s = 8.0 / 60.0;
    assert_eq!(
        bot.decide(&at(10.0 + 1.0 / 60.0 + step_s * 1.7)),
        Action::Idle
    );
    assert_eq!(bot.decide(&at(15.0)), Action::Idle);
}

#[test]
fn threat_cells_use_enemy_radius_and_capacity() {
    let mut w = open_field(9, 3);
    w.insert_player(player(0, 6, 1, 2));
    w.insert_player(player(1, 1, 1, 3));
    let threat = threat_cells(&w, 0);
    assert!(threat.contains(&(4, 1)) && !threat.contains(&(5, 1)));
    w.insert_bomb(bomb(7, 1, 3, 1, 100, 0));
    assert!(threat_cells(&w, 0).is_empty());
}

#[test]
fn escape_prefers_a_haven_outside_the_enemy_line() {
    let mut w = open_field(5, 5);
    w.insert_player(player(0, 2, 2, 2));
    w.insert_player(player(1, 1, 1, 2));
    w.insert_flame(FlameView {
        x: 2,
        y: 2,
        ticks: 10,
        seen_tick: 0,
    });
    let a = decide(&mut Bot::default(), &w);
    assert!(a == Action::Down || a == Action::Right, "{a:?}");
}

#[test]
fn sudden_death_prep_devalues_edge_targets() {
    let rules = Rules {
        round_time_ticks: 10800,
        sudden_death_tick: 7200,
        ..Rules::default()
    };
    let mut w = open_field(9, 7);
    w.set_tile_for_test(1, 3, Tile::Soft);
    w.set_tile_for_test(5, 3, Tile::Soft);
    let me = player(0, 3, 3, 2);
    w.insert_player(me);
    let bot = Bot::default();
    let world = Sight::new(&w, &rules, 0, None, 7200 - 300);
    assert!(world.sd_prep);
    let vals = bot.target_values(&world, &me, &vec![]);
    assert!(value_at(&vals, (2, 3)) < value_at(&vals, (4, 3)));
    let calm = Sight::new(&w, &rules, 0, None, 600);
    assert!(!calm.sd_prep);
    let vals = bot.target_values(&calm, &me, &vec![]);
    assert_eq!(value_at(&vals, (2, 3)), value_at(&vals, (4, 3)));
}

#[test]
fn sudden_death_moves_inward() {
    let rules = Rules {
        round_time_ticks: 10800,
        sudden_death_tick: 7200,
        ..Rules::default()
    };
    let mut w = open_field(7, 5);
    w.insert_player(player(0, 1, 1, 2));
    let mut bot = Bot::default();
    let a = bot.decide(&situation(&w, rules, Some(7200 - 30), None, 0.0));
    assert!(a == Action::Right || a == Action::Down, "{a:?}");
}

#[test]
fn no_bomb_right_after_sending_a_move() {
    let mut w = open_field(7, 5);
    w.set_tile_for_test(4, 2, Tile::Soft);
    w.insert_player(player(0, 3, 2, 2));
    let mut bot = Bot::default();
    bot.memo.last_move_tick = Some(99);
    assert!(!is_bomb(bot.decide(&situation(
        &w,
        Rules::default(),
        Some(100),
        None,
        0.0
    ))));
    assert!(is_combo(bot.decide(&situation(
        &w,
        Rules::default(),
        Some(99 + MOVE_SETTLE_TICKS),
        None,
        0.0
    ))));
}

#[test]
fn prefers_a_reachable_powerup() {
    let mut w = open_field(9, 5);
    w.insert_player(player(0, 2, 2, 2));
    w.insert_powerup(PowerupView {
        id: 1,
        x: 5,
        y: 2,
        kind: PowerupKind::Flame,
    });
    assert_eq!(decide(&mut Bot::default(), &w), Action::Right);
}

fn crate_corner() -> World {
    let mut w = open_field(6, 6);
    w.set_tile_for_test(1, 3, Tile::Soft);
    w.insert_player(player(0, 1, 2, 1));
    w
}

#[test]
fn memory_from_the_previous_match_does_not_block_bombing() {
    let w = crate_corner();
    let mut bot = Bot::default();
    bot.memo.tick = Some(4000);
    bot.memo.bomb_sent_tick = Some(3990);
    bot.memo.last_move_tick = Some(3999);
    bot.memo.match_id = Some(1);
    bot.memo.banned.push(((1, 2), 4100));
    let a = bot.decide(&situation(&w, Rules::default(), Some(30), Some(2), 0.0));
    assert!(is_bomb(a));
    assert_eq!(bot.memo.match_id, Some(2));
}

#[test]
fn memory_is_kept_within_a_match_and_a_lost_bomb_is_resent_once() {
    let w = crate_corner();
    let mut bot = Bot::default();
    let at = |t| situation(&w, Rules::default(), Some(t), Some(1), 0.0);
    let first = bot.decide(&at(30));
    assert!(is_bomb(first));
    assert_eq!(bot.decide(&at(31)), first, "resent once: nothing happened");
    assert!(!is_bomb(bot.decide(&at(32))), "then the cooldown holds");
}

#[test]
fn waits_on_its_bomb_spot_while_its_bomb_burns() {
    let mut w = open_field(7, 7);
    w.set_tile_for_test(1, 3, Tile::Soft);
    w.set_tile_for_test(3, 1, Tile::Soft);
    w.insert_player(player(0, 1, 2, 1));
    w.insert_bomb(bomb(1, 0, 4, 4, 100, 100));
    let mut bot = Bot::default();
    bot.memo.target = Some((1, 2));
    bot.memo.match_id = Some(1);
    for tick in 100..110 {
        assert_eq!(
            bot.decide(&situation(&w, Rules::default(), Some(tick), Some(1), 0.0)),
            Action::Idle
        );
    }
    assert!(!bot.memo.banned.iter().any(|(c, _)| *c == (1, 2)));
}

#[test]
fn an_unknown_player_does_nothing_and_keeps_its_memory() {
    let w = open_field(5, 5);
    let mut bot = Bot::default();
    bot.memo.target = Some((2, 2));
    assert_eq!(decide(&mut bot, &w), Action::Idle);
    assert_eq!(bot.memo.target, Some((2, 2)));
}

#[test]
fn every_bomb_action_has_a_plain_move_behind_it() {
    assert_eq!(without_bomb(Action::Bomb), Some(Action::Idle));
    assert_eq!(without_bomb(Action::UpBomb), Some(Action::Up));
    assert_eq!(without_bomb(Action::DownBomb), Some(Action::Down));
    assert_eq!(without_bomb(Action::LeftBomb), Some(Action::Left));
    assert_eq!(without_bomb(Action::RightBomb), Some(Action::Right));
    assert_eq!(without_bomb(Action::Left), None);
    assert_eq!(without_bomb(Action::Start), None);
}

#[test]
fn a_flame_is_lethal_until_it_dies_down_plus_the_margin() {
    let mut w = open_field(5, 5);
    w.insert_flame(FlameView {
        x: 2,
        y: 2,
        ticks: 10,
        seen_tick: 4,
    });
    let iv = danger_intervals(&w, &Rules::default(), None, 8);
    assert_eq!(iv.windows_at((2, 2)), vec![(0, 6 + SAFETY_MARGIN_TICKS)]);
    assert!(!iv.covers((1, 2)));
}

#[test]
fn a_planned_bomb_counts_with_a_full_fuse() {
    let w = open_field(7, 3);
    let iv = danger_intervals(&w, &Rules::default(), Some(((3, 1), 1)), 0);
    let rules = Rules::default();
    let start = rules.bomb_fuse_ticks as i64 - SAFETY_MARGIN_TICKS;
    let end = (rules.bomb_fuse_ticks + rules.flame_duration_ticks) as i64 + SAFETY_MARGIN_TICKS;
    assert_eq!(iv.windows_at((2, 1)), vec![(start, end)]);
    assert_eq!(iv.windows_at((4, 1)), vec![(start, end)]);
    assert!(!iv.covers((5, 1)), "radius one");
}

#[test]
fn sudden_death_windows_follow_the_closing_order() {
    let rules = Rules {
        round_time_ticks: 10800,
        sudden_death_tick: 7200,
        ..Rules::default()
    };
    let w = open_field(7, 5);
    let iv = danger_intervals(&w, &rules, None, 7200 - 10);
    assert_eq!(iv.windows_at((1, 1)), vec![(10, 1 << 30)]);
    assert_eq!(iv.windows_at((2, 1)), vec![(16, 1 << 30)]);
    assert_eq!(iv.windows_at((4, 2)), vec![(10 + 14 * 6, 1 << 30)]);
}

#[test]
fn a_bomb_far_off_the_board_blasts_only_its_own_cell() {
    let w = open_field(5, 5);
    assert_eq!(blast_cells(&w, 2_000_000_000, -7, 3), vec![(2_000_000_000, -7)]);
    assert_eq!(blast_cells(&w, 2, 2, 1).len(), 5);
}

#[test]
fn a_counter_ages_down_to_zero_and_never_grows() {
    assert_eq!(remaining(100, 0, 95), 5);
    assert_eq!(remaining(100, 0, 200), 0);
    assert_eq!(remaining(100, 50, 10), 100);
    assert_eq!(remaining(i64::MAX, 0, 10), i64::MAX - 10);
    assert_eq!(remaining(-5, 0, 0), 0);
}
