use bomber::domain::LobbyState;
use bomber::hints::{lobby_hint, LobbyHint, TextField};
use bomber::lobby_status::{LobbyDetails, LobbyStatus, SeatStatus};
use bomber::session::Session;

fn seat(occupied: bool, stale: bool) -> SeatStatus {
    SeatStatus {
        occupied,
        stale,
        bot: false,
        bot_fill: false,
        name: String::from("P"),
    }
}

fn details(paused: bool, player_control: bool, can_start: bool, seats: Vec<SeatStatus>) -> LobbyDetails {
    LobbyDetails {
        paused,
        can_start,
        player_control,
        server_bots: false,
        min_players: 2,
        seats,
    }
}

fn with_lobby(state: LobbyState, d: Option<LobbyDetails>) -> Session {
    let mut s = Session::new("Me".to_string(), 0);
    s.lobby = Some(LobbyStatus {
        tick: 1,
        state,
        players_connected: 1,
        max_players: 4,
        slot_mask: 1,
        countdown_ticks: 0,
        details: d,
    });
    s
}

#[test]
fn no_lobby_gives_no_hint() {
    let s = Session::new("Me".to_string(), 0);
    assert_eq!(lobby_hint(&s), LobbyHint::Nothing);
}

#[test]
fn a_lobby_without_details_cannot_be_started_by_players() {
    let s = with_lobby(LobbyState::Open, None);
    assert_eq!(lobby_hint(&s), LobbyHint::NoPlayerStart);
}

#[test]
fn pause_comes_before_everything_else() {
    let s = with_lobby(LobbyState::Locked, Some(details(true, false, true, vec![])));
    assert_eq!(lobby_hint(&s), LobbyHint::Paused);
}

#[test]
fn without_player_control_the_moderation_starts() {
    let s = with_lobby(LobbyState::Open, Some(details(false, false, true, vec![])));
    assert_eq!(lobby_hint(&s), LobbyHint::ModeratorStarts);
}

#[test]
fn a_locked_lobby_that_cannot_start_says_so() {
    let s = with_lobby(LobbyState::Locked, Some(details(false, true, false, vec![])));
    assert_eq!(lobby_hint(&s), LobbyHint::Locked);
}

#[test]
fn unresponsive_seats_are_counted_before_starting() {
    let seats = vec![seat(true, true), seat(true, false), seat(false, true), seat(true, true)];
    let s = with_lobby(LobbyState::Open, Some(details(false, true, true, seats)));
    assert_eq!(lobby_hint(&s), LobbyHint::Unresponsive(2));
}

#[test]
fn everyone_present_means_ready() {
    let seats = vec![seat(true, false), seat(true, false)];
    let s = with_lobby(LobbyState::Locked, Some(details(false, true, true, seats)));
    assert_eq!(lobby_hint(&s), LobbyHint::Ready);
}

#[test]
fn too_few_players_means_waiting() {
    let s = with_lobby(LobbyState::Open, Some(details(false, true, false, vec![seat(true, false)])));
    assert_eq!(
        lobby_hint(&s),
        LobbyHint::Waiting {
            connected: 1,
            needed: 2
        }
    );
}

#[test]
fn typing_adds_up_to_the_limit() {
    let mut f = TextField::new("ab", 4);
    f.edit(&['c', 'd', 'e'], false);
    assert_eq!(f.value, "abcd");
    assert_eq!(f.max_chars, 4);
}

#[test]
fn a_backspace_character_removes_the_last_one() {
    let mut f = TextField::new("abc", 10);
    f.edit(&['\u{8}', 'x'], false);
    assert_eq!(f.value, "abx");
}

#[test]
fn control_characters_are_ignored() {
    let mut f = TextField::new("a", 10);
    f.edit(&['\n', '\t', 'b', '\u{1b}'], false);
    assert_eq!(f.value, "ab");
}

#[test]
fn backspace_on_an_empty_field_does_nothing() {
    let mut f = TextField::new("", 10);
    f.edit(&['\u{8}'], false);
    assert_eq!(f.value, "");
    f.edit(&[], true);
    assert_eq!(f.value, "");
}

#[test]
fn the_backspace_key_removes_one_character() {
    let mut f = TextField::new("héé", 10);
    f.edit(&[], true);
    assert_eq!(f.value, "hé");
}

#[test]
fn a_full_field_takes_a_character_after_a_backspace() {
    let mut f = TextField::new("abc", 3);
    f.edit(&['d', '\u{8}', 'e'], false);
    assert_eq!(f.value, "abe");
}

#[test]
fn the_backspace_key_counts_once_with_its_character() {
    let mut f = TextField::new("abc", 10);
    f.edit(&['\u{8}'], true);
    assert_eq!(f.value, "ab");
    f.edit(&['x'], true);
    assert_eq!(f.value, "ab");
}
