use bomber::domain::{Direction, PowerupKind, Tile};
use bomber::world::{
    BombView, DeltaRecord, FlameView, FxEvent, Keyframe, PlayerView, PowerupView, World,
    SUDDEN_DEATH_TICKS_PER_CELL,
};

fn keyframe() -> Keyframe {
    let mut cells = vec![Tile::Empty; 7 * 5];
    cells[2] = Tile::Soft;
    cells[3] = Tile::Solid;
    Keyframe {
        tick: 30,
        width: 7,
        height: 5,
        cells,
        players: vec![PlayerView {
            id: 0,
            alive: true,
            moving: false,
            x: 1,
            y: 1,
            dir: Direction::Down,
            move_progress: 0,
            bombs_max: 1,
            flame: 2,
            speed: 0,
            score: 0,
        }],
        bombs: vec![],
        flames: vec![],
        powerups: vec![],
        ticks_remaining: 1000,
    }
}

#[test]
fn a_keyframe_becomes_a_world() {
    let world = World::from_keyframe(&keyframe());
    assert_eq!((world.width, world.height), (7, 5));
    assert_eq!(world.tile(2, 0), Tile::Soft);
    assert_eq!(world.tile(3, 0), Tile::Solid);
    assert_eq!(world.tile(-1, 0), Tile::Solid, "outside is wall");
    assert_eq!(world.player(0).unwrap().flame, 2);
}

#[test]
fn deltas_edit_the_world_and_report_effects() {
    let mut world = World::from_keyframe(&keyframe());
    let mut fx = Vec::new();
    world.apply(
        31,
        &[
            DeltaRecord::BombAdd {
                id: 9,
                owner: 0,
                x: 1,
                y: 1,
                fuse: 120,
            },
            DeltaRecord::TileSet {
                x: 2,
                y: 0,
                tile: Tile::Empty,
            },
            DeltaRecord::FlameAdd {
                x: 2,
                y: 0,
                ticks: 30,
            },
        ],
        &mut fx,
    );
    assert!(world.bomb_at(1, 1));
    assert_eq!(world.tile(2, 0), Tile::Empty);
    assert_eq!(world.tick, 31);
    assert!(fx.contains(&FxEvent::CrateBroken { x: 2, y: 0 }));
    assert!(fx.contains(&FxEvent::BombPlaced { x: 1, y: 1 }));

    let bomb = world.bomb(9).unwrap();
    assert_eq!(world.fuse_left(&bomb, 61), 90, "aged by 30 ticks");
    let flame = world.flame(2, 0).unwrap();
    assert_eq!(world.flame_left(&flame, 100), 0, "never below zero");
}

#[test]
fn a_death_reports_where_it_happened() {
    let mut world = World::from_keyframe(&keyframe());
    let mut fx = Vec::new();
    world.apply(
        31,
        &[DeltaRecord::PlayerDeath {
            id: 0,
            killer: None,
        }],
        &mut fx,
    );
    assert!(!world.player(0).unwrap().alive);
    assert_eq!(
        fx,
        vec![FxEvent::PlayerDied {
            player: 0,
            x: 1,
            y: 1
        }]
    );
}

#[test]
fn closing_order_starts_at_the_top_left_and_covers_every_interior_cell() {
    let order = World::closing_order(7, 5);
    assert_eq!(order[0], (1, 1));
    assert_eq!(order.len(), 5 * 3);
    assert_eq!(order[4], (5, 1), "clockwise along the top first");
}

#[test]
fn the_closing_order_goes_down_the_right_then_back_along_the_bottom() {
    let order = World::closing_order(7, 5);
    assert_eq!(order[5], (5, 2));
    assert_eq!(order[6], (5, 3));
    assert_eq!(order[7], (4, 3));
    assert_eq!(order[10], (1, 3));
    assert_eq!(order[11], (1, 2), "then up the left side");
    assert_eq!(&order[12..], &[(2, 2), (3, 2), (4, 2)]);
    let mut sorted = order.clone();
    sorted.sort();
    sorted.dedup();
    assert_eq!(sorted.len(), order.len(), "no cell twice");
}

#[test]
fn a_board_without_interior_closes_nothing() {
    assert!(World::closing_order(2, 2).is_empty());
    assert!(World::closing_order(0, 9).is_empty());
    assert_eq!(World::closing_order(3, 3), vec![(1, 1)]);
    assert_eq!(SUDDEN_DEATH_TICKS_PER_CELL, 6);
}

#[test]
fn a_delta_split_in_two_ends_where_the_whole_delta_ends() {
    let records = [
        DeltaRecord::PowerupAdd {
            id: 4,
            x: 3,
            y: 3,
            kind: PowerupKind::Speed,
        },
        DeltaRecord::PlayerState {
            id: 2,
            alive: true,
            moving: true,
            x: 4,
            y: 3,
            dir: Direction::Right,
            move_progress: 1,
        },
        DeltaRecord::PowerupRemove {
            id: 4,
            taken_by: Some(2),
        },
        DeltaRecord::WallClosed { x: 1, y: 1 },
        DeltaRecord::Timer {
            ticks_remaining: 77,
        },
    ];
    let mut whole = World::from_keyframe(&keyframe());
    let mut fx_whole = Vec::new();
    whole.apply(40, &records, &mut fx_whole);

    let mut split = World::from_keyframe(&keyframe());
    let mut fx_split = Vec::new();
    split.apply(40, &records[..2], &mut fx_split);
    split.apply(40, &records[2..], &mut fx_split);

    assert_eq!(whole, split);
    assert_eq!(fx_whole, fx_split);
    assert_eq!(
        fx_whole,
        vec![
            FxEvent::PowerupTaken {
                player: 2,
                x: 3,
                y: 3,
                kind: PowerupKind::Speed
            },
            FxEvent::WallClosed { x: 1, y: 1 },
        ]
    );
    assert_eq!(whole.tile(1, 1), Tile::Solid);
    assert_eq!(whole.ticks_remaining, 77);
    let p = whole.player(2).unwrap();
    assert_eq!((p.bombs_max, p.flame, p.speed, p.score), (1, 1, 0, 0));
}

#[test]
fn removals_and_stats_touch_only_what_exists() {
    let mut world = World::from_keyframe(&keyframe());
    let mut fx = Vec::new();
    world.apply(
        31,
        &[
            DeltaRecord::BombRemove { id: 5 },
            DeltaRecord::PowerupRemove {
                id: 5,
                taken_by: None,
            },
            DeltaRecord::PlayerDeath {
                id: 3,
                killer: None,
            },
            DeltaRecord::PlayerStats {
                id: 0,
                bombs_max: 3,
                flame: 4,
                speed: 1,
                score: 10,
            },
            DeltaRecord::PowerupAdd {
                id: 6,
                x: 5,
                y: 3,
                kind: PowerupKind::Flame,
            },
            DeltaRecord::PowerupRemove {
                id: 6,
                taken_by: None,
            },
            DeltaRecord::FlameAdd { x: 1, y: 2, ticks: 9 },
            DeltaRecord::FlameRemove { x: 1, y: 2 },
            DeltaRecord::Explosion {
                x: 1,
                y: 1,
                up: 0,
                down: 2,
                left: 0,
                right: 1,
            },
        ],
        &mut fx,
    );
    assert_eq!(
        fx,
        vec![
            FxEvent::PowerupBurned { x: 5, y: 3 },
            FxEvent::Explosion {
                x: 1,
                y: 1,
                up: 0,
                down: 2,
                left: 0,
                right: 1
            },
        ]
    );
    let p = world.player(0).unwrap();
    assert_eq!((p.bombs_max, p.flame, p.speed, p.score), (3, 4, 1, 10));
    assert!(world.flame(1, 2).is_none());
    assert!(world.player(3).is_none());
}

#[test]
fn a_keyframe_entry_repeated_keeps_the_last() {
    let mut k = keyframe();
    k.bombs = vec![
        bomber::world::BombSnapshot {
            id: 1,
            owner: 0,
            x: 1,
            y: 1,
            fuse_remaining: 50,
        },
        bomber::world::BombSnapshot {
            id: 1,
            owner: 0,
            x: 2,
            y: 1,
            fuse_remaining: 40,
        },
    ];
    k.flames = vec![bomber::world::FlameSnapshot {
        x: 4,
        y: 4,
        ticks_remaining: 12,
    }];
    let world = World::from_keyframe(&k);
    assert_eq!(
        world.bomb(1),
        Some(BombView {
            id: 1,
            owner: 0,
            x: 2,
            y: 1,
            fuse: 40,
            seen_tick: 30
        })
    );
    assert_eq!(
        world.flame(4, 4),
        Some(FlameView {
            x: 4,
            y: 4,
            ticks: 12,
            seen_tick: 30
        })
    );
    assert!(!world.bomb_at(1, 1));
    assert!(world.bomb_at(2, 1));
}

#[test]
fn fuses_age_but_not_backwards() {
    let world = World::from_keyframe(&keyframe());
    let b = BombView {
        id: 1,
        owner: 0,
        x: 1,
        y: 1,
        fuse: 120,
        seen_tick: 50,
    };
    assert_eq!(world.fuse_left(&b, 40), 120);
    assert_eq!(world.fuse_left(&b, 170), 0);
    assert_eq!(world.fuse_left(&b, 100), 70);
    let p = PowerupView {
        id: 1,
        x: 1,
        y: 1,
        kind: PowerupKind::ExtraBomb,
    };
    let mut w = World::from_tiles(3, 3, vec![Tile::Empty; 9]);
    w.insert_powerup(p);
    w.insert_powerup(PowerupView { x: 2, ..p });
    assert_eq!(w.powerups.len(), 1);
    assert_eq!(w.powerups[0].x, 2);
}
