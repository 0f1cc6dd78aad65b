use bomber::domain::{Action, Direction};
use bomber::input::{Steering, BOMB_REPEAT_TICKS};

#[test]
fn the_latest_direction_wins_and_release_falls_back() {
    let mut s = Steering::default();
    s.press(Direction::Up);
    s.press(Direction::Left);
    assert_eq!(s.action(), Action::Left);
    s.release(Direction::Left);
    assert_eq!(s.action(), Action::Up);
    s.release(Direction::Up);
    assert_eq!(s.action(), Action::Idle);
}

#[test]
fn a_bomb_combines_with_the_held_direction_for_a_few_ticks() {
    let mut s = Steering::default();
    s.press(Direction::Right);
    s.bomb();
    for _ in 0..BOMB_REPEAT_TICKS {
        assert_eq!(s.action(), Action::RightBomb);
    }
    assert_eq!(s.action(), Action::Right);
}

#[test]
fn a_bomb_alone_and_clearing() {
    let mut s = Steering::new();
    s.bomb();
    assert_eq!(s.action(), Action::Bomb);
    s.press(Direction::Down);
    s.press(Direction::Down);
    s.clear();
    assert_eq!(s.action(), Action::Idle);
}

#[test]
fn pressing_again_moves_a_direction_to_the_top() {
    let mut s = Steering::new();
    s.press(Direction::Up);
    s.press(Direction::Left);
    s.press(Direction::Up);
    s.release(Direction::Up);
    assert_eq!(s.action(), Action::Left);
}
