use bomber::board::{explosion_piece, item_sprite, player_sprite, sudden_death_warnings, Warning};
use bomber::domain::{Direction, PowerupKind, Rules, Tile};
use bomber::world::World;
use bomber::cli::parse_args;
use bomber::settings::Settings;
use bomber::sound::wav;

fn cells(list: &[(i32, i32)]) -> Vec<(i32, i32)> {
    list.to_vec()
}

/// A sample in -1..1 as 16-bit PCM, the way the client converts its synthesis.
fn pcm(samples: &[f32]) -> Vec<i16> {
    samples
        .iter()
        .map(|s| (s.clamp(-1.0, 1.0) * i16::MAX as f32) as i16)
        .collect()
}

fn args(list: &[&str]) -> Vec<String> {
    list.iter().map(|s| s.to_string()).collect()
}

#[test]
fn a_horizontal_blast_has_tips_pointing_outward() {
    let burning = cells(&[(1, 1), (2, 1), (3, 1)]);
    assert_eq!(explosion_piece(1, 1, &burning), "expl_tip_left");
    assert_eq!(explosion_piece(2, 1, &burning), "expl_arm_h");
    assert_eq!(explosion_piece(3, 1, &burning), "expl_tip_right");
}

#[test]
fn a_crossing_is_a_centre_and_a_lone_cell_too() {
    let burning = cells(&[(2, 1), (1, 2), (2, 2), (3, 2), (2, 3), (9, 9)]);
    assert_eq!(explosion_piece(2, 2, &burning), "expl_center");
    assert_eq!(explosion_piece(2, 1, &burning), "expl_tip_up");
    assert_eq!(explosion_piece(2, 3, &burning), "expl_tip_down");
    assert_eq!(explosion_piece(9, 9, &burning), "expl_center");
}

#[test]
fn a_vertical_arm_is_a_vertical_piece() {
    let burning = cells(&[(4, 1), (4, 2), (4, 3)]);
    assert_eq!(explosion_piece(4, 2, &burning), "expl_arm_v");
}

#[test]
fn a_wav_header_describes_its_data() {
    let bytes = wav(&pcm(&[0.0, 0.5, -0.5]));
    assert_eq!(&bytes[..4], b"RIFF");
    assert_eq!(bytes.len(), 44 + 6);
    assert_eq!(u32::from_le_bytes(bytes[40..44].try_into().unwrap()), 6);
}

#[test]
fn a_wav_is_sixteen_bit_mono_at_the_sample_rate() {
    let bytes = wav(&[1, -1, 300]);
    assert_eq!(u32::from_le_bytes(bytes[4..8].try_into().unwrap()), 36 + 6);
    assert_eq!(&bytes[8..16], b"WAVEfmt ");
    assert_eq!(u16::from_le_bytes(bytes[22..24].try_into().unwrap()), 1, "mono");
    assert_eq!(u32::from_le_bytes(bytes[24..28].try_into().unwrap()), 44_100);
    assert_eq!(u16::from_le_bytes(bytes[34..36].try_into().unwrap()), 16);
    assert_eq!(&bytes[36..40], b"data");
    assert_eq!(&bytes[44..], &[1, 0, 255, 255, 44, 1]);
}

#[test]
fn the_command_line_sets_what_it_names() {
    let p = parse_args(
        &args(&["--host", "example.org:5000", "--name=Anna", "--bot", "--connect", "x"]),
        Settings::default(),
    );
    assert!(!p.help);
    assert_eq!(p.options.settings.host, "example.org");
    assert_eq!(p.options.settings.port, 5000);
    assert_eq!(p.options.settings.name, "Anna");
    assert!(p.options.settings.bot);
    assert!(p.options.connect);
    assert!(!p.options.autostart);
}

#[test]
fn a_bad_port_keeps_the_old_one_and_help_stops_reading() {
    let start = Settings::default();
    let port = start.port;
    let p = parse_args(&args(&["--port", "http", "-h", "--debug"]), start);
    assert!(p.help);
    assert!(!p.options.debug, "nothing after the help is read");
    assert_eq!(p.options.settings.port, port);
    let p = parse_args(&args(&["--name", "abcdefghijklmnopqrstuvwxyz"]), Settings::default());
    assert_eq!(p.options.settings.name, "abcdefghijklmnopqrstuvwx");
    let p = parse_args(&args(&["--port"]), Settings::default());
    assert_eq!(p.options.settings.port, port, "a missing value reads as empty");
}

fn open_board() -> World {
    let mut tiles = vec![Tile::Empty; 25];
    tiles[1 * 5 + 2] = Tile::Solid;
    World::from_tiles(5, 5, tiles)
}

#[test]
fn cells_glow_before_sudden_death_reaches_them() {
    let w = open_board();
    let rules = Rules::default();
    let at_start = sudden_death_warnings(&w, rules, 7200 * 100);
    let cells: Vec<(i32, i32)> = at_start.iter().map(|c| (c.x, c.y)).collect();
    assert_eq!(
        cells,
        vec![(1, 1), (3, 1), (3, 2), (3, 3), (2, 3), (1, 3), (1, 2), (2, 2)],
        "in closing order, walls left out"
    );
    assert_eq!(at_start[0], Warning { x: 1, y: 1, index: 0, ahead: 0 });
    assert_eq!(at_start[1], Warning { x: 3, y: 1, index: 2, ahead: 1200 });

    let early = sudden_death_warnings(&w, rules, (7200 - 90) * 100);
    assert_eq!(early, vec![Warning { x: 1, y: 1, index: 0, ahead: 9000 }]);
    assert!(sudden_death_warnings(&w, rules, (7200 - 91) * 100).is_empty());

    let later = sudden_death_warnings(&w, rules, 7200 * 100 + 1);
    assert_eq!(later[0].index, 2, "a closed cell no longer glows");
}

#[test]
fn no_glow_when_the_round_ends_first() {
    let w = open_board();
    let mut rules = Rules::default();
    rules.sudden_death_tick = rules.round_time_ticks;
    assert!(sudden_death_warnings(&w, rules, 7200 * 100).is_empty());
}

#[test]
fn sprite_names_follow_the_atlas() {
    assert_eq!(player_sprite(0, Direction::Down, 0), "player_blue_down_0");
    assert_eq!(player_sprite(5, Direction::Left, 7), "player_red_left_3");
    assert_eq!(player_sprite(2, Direction::Up, 2), "player_yellow_up_2");
    assert_eq!(player_sprite(3, Direction::Right, 1), "player_purple_right_1");
    assert_eq!(item_sprite(PowerupKind::ExtraBomb, 3), "item_bomb_up_1");
    assert_eq!(item_sprite(PowerupKind::Flame, 0), "item_fire_up_0");
    assert_eq!(item_sprite(PowerupKind::Speed, 4), "item_speed_up_0");
}
