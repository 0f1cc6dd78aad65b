use bomber::codec::{ClientPacket, Field, ProtoError, Reader, SeatBotRequest};
use bomber::domain::{Action, LobbyState};
use bomber::endpoint::{route, Route};
use bomber::lobby_status::{decode_lobby_frame, hello_bytes, LobbyDetails, LobbyStatus, SeatStatus, LOBBY_STATUS_KIND};

fn sample() -> LobbyStatus {
    LobbyStatus {
        tick: 7,
        state: LobbyState::Open,
        players_connected: 2,
        max_players: 4,
        slot_mask: 0b0011,
        countdown_ticks: 0,
        details: Some(LobbyDetails {
            paused: false,
            can_start: true,
            player_control: true,
            server_bots: true,
            min_players: 2,
            seats: vec![
                SeatStatus {
                    occupied: true,
                    stale: false,
                    bot: false,
                    bot_fill: true,
                    name: "Anna".into(),
                },
                SeatStatus {
                    occupied: true,
                    stale: true,
                    bot: false,
                    bot_fill: false,
                    name: "Bärbel 🙂".into(),
                },
                SeatStatus {
                    occupied: true,
                    stale: false,
                    bot: true,
                    bot_fill: true,
                    name: "Server-Bot 3".into(),
                },
                SeatStatus {
                    occupied: false,
                    stale: false,
                    bot: false,
                    bot_fill: false,
                    name: "bot-3".into(),
                },
            ],
        }),
    }
}

fn round_trip(status: &LobbyStatus) -> LobbyStatus {
    let mut bytes = Vec::with_capacity(64);
    status.encode(&mut bytes);
    LobbyStatus::decode(status.tick, &mut Reader::new(&bytes)).unwrap()
}

#[test]
fn the_extended_status_round_trips() {
    let status = sample();
    assert_eq!(round_trip(&status), status);
}

#[test]
fn a_status_without_the_tail_is_still_valid() {
    let status = LobbyStatus {
        details: None,
        ..sample()
    };
    assert_eq!(round_trip(&status), status);
}

#[test]
fn the_v1_prefix_is_unchanged() {
    let mut bytes = Vec::with_capacity(64);
    sample().encode(&mut bytes);
    assert_eq!(&bytes[..6], &[0, 2, 4, 0b0011, 0, 0]);
}

#[test]
fn a_long_name_is_cut_at_a_character_boundary() {
    let mut status = sample();
    let long = "ääääääääääääääääääää"; // 20 characters, 40 bytes
    status.details.as_mut().unwrap().seats[0].name = long.into();
    let back = round_trip(&status);
    let name = &back.details.unwrap().seats[0].name;
    assert_eq!(name, "ääääääääääää"); // 24 bytes
}

#[test]
fn the_countdown_is_little_endian() {
    let status = LobbyStatus {
        countdown_ticks: 0x0102,
        details: None,
        state: LobbyState::Countdown,
        ..sample()
    };
    let mut bytes = Vec::new();
    status.encode(&mut bytes);
    assert_eq!(bytes, vec![2, 2, 4, 0b0011, 0x02, 0x01]);
}

#[test]
fn a_bad_state_or_a_cut_tail_is_refused() {
    assert_eq!(
        LobbyStatus::decode(0, &mut Reader::new(&[9, 0, 0, 0, 0, 0])),
        Err(ProtoError::Invalid {
            field: Field::LobbyState,
            value: 9
        })
    );
    assert_eq!(
        LobbyStatus::decode(0, &mut Reader::new(&[0, 0, 0, 0, 0])),
        Err(ProtoError::Truncated { at: 4, need: 1 })
    );
    // One seat announced, its name cut short.
    assert_eq!(
        LobbyStatus::decode(0, &mut Reader::new(&[0, 0, 0, 0, 0, 0, 0, 2, 1, 1, 5, b'a'])),
        Err(ProtoError::Truncated { at: 11, need: 4 })
    );
}

#[test]
fn invalid_utf8_in_a_name_is_shown_lossily() {
    let bytes = [0, 0, 0, 0, 0, 0, 0, 2, 1, 1, 2, b'a', 0xFF];
    let status = LobbyStatus::decode(0, &mut Reader::new(&bytes)).unwrap();
    assert_eq!(status.details.unwrap().seats[0].name, "a\u{FFFD}");
}

#[test]
fn a_request_round_trips() {
    for enabled in [false, true] {
        let request = SeatBotRequest {
            player: 1,
            seq: 9,
            seat: 3,
            enabled,
        };
        assert_eq!(SeatBotRequest::decode(&request.encode()), Ok(request));
    }
}

#[test]
fn the_layout_is_the_documented_one() {
    let request = SeatBotRequest {
        player: 2,
        seq: 5,
        seat: 0,
        enabled: true,
    };
    assert_eq!(request.encode(), [2, 0x5E, 0, 1]);
}

#[test]
fn a_request_without_its_payload_is_truncation() {
    assert!(matches!(
        SeatBotRequest::decode(&[0, 0x1E]),
        Err(ProtoError::Truncated { .. })
    ));
    assert!(matches!(
        SeatBotRequest::decode(&[0, 0x1E, 2]),
        Err(ProtoError::Truncated { .. })
    ));
}

#[test]
fn another_action_or_a_bad_flag_is_refused() {
    assert!(SeatBotRequest::decode(&[0, 0x1A, 2, 1]).is_err());
    assert!(SeatBotRequest::decode(&[0, 0x1E, 2, 7]).is_err());
}

#[test]
fn a_client_packet_is_id_then_sequence_and_code() {
    let p = ClientPacket::new(3, 7, Action::LeftBomb);
    assert_eq!(p.encode(), [3, 0x78]);
    assert_eq!(ClientPacket::decode(&[3, 0x78]), Ok(p));
    assert_eq!(
        ClientPacket::decode(&[3]),
        Err(ProtoError::Truncated { at: 1, need: 1 })
    );
    assert!(ClientPacket::decode(&[0, 0x0F]).unwrap().is_hello());
}

#[test]
fn datagrams_are_routed_by_what_they_carry() {
    // Junk and strangers are dropped.
    assert_eq!(route(&[7], Some(0)), Route::Ignore);
    assert_eq!(route(&[0, 0x21], None), Route::Ignore);
    // A hello needs no seat.
    assert_eq!(route(&[0, 0x0f], None), Route::Hello);
    // The id in byte 0 must be the sender's seat.
    assert_eq!(route(&[1, 0x21], Some(0)), Route::Ignore);
    assert_eq!(
        route(&[1, 0x21], Some(1)),
        Route::Move { player: 1, action: Action::Up, seq: 2 }
    );
    assert_eq!(
        route(&[2, 0x3a], Some(2)),
        Route::Lobby { player: 2, action: Action::Start, seq: 3 }
    );
    assert_eq!(
        route(&[2, 0x1e, 3, 1], Some(2)),
        Route::SeatBot(SeatBotRequest { player: 2, seq: 1, seat: 3, enabled: true })
    );
    assert_eq!(route(&[2, 0x1e, 3, 2], Some(2)), Route::Ignore, "a bad flag");
    assert_eq!(route(&[2, 0x1e], Some(2)), Route::Ignore, "no payload");
}

#[test]
fn a_lobby_frame_is_its_kind_its_tick_and_the_status() {
    let mut status = sample();
    status.tick = 0x0102_0304;
    let mut bytes = vec![LOBBY_STATUS_KIND, 0x04, 0x03, 0x02, 0x01];
    status.encode(&mut bytes);
    assert_eq!(decode_lobby_frame(&bytes), Some(status));
    bytes[0] = 0x11;
    assert_eq!(decode_lobby_frame(&bytes), None, "another kind");
    assert_eq!(decode_lobby_frame(&[LOBBY_STATUS_KIND, 1, 2]), None, "too short");
}

#[test]
fn the_hello_carries_the_trimmed_name_cut_to_a_seat() {
    assert_eq!(hello_bytes("  Anna "), vec![0, 0x0F, b'A', b'n', b'n', b'a']);
    let long = "x".repeat(30);
    let b = hello_bytes(&long);
    assert_eq!(b.len(), 2 + 24);
    assert_eq!(hello_bytes(""), vec![0, 0x0F]);
}
