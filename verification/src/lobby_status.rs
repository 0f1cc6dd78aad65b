//! LOBBY_STATUS: the heartbeat while waiting, so a bot can tell "nothing has
//! started yet" from "I have lost the server".
//!
//! ```text
//! offset 5   u8   lobby state
//!        6   u8   players connected
//!        7   u8   max players
//!        8   u8   slot mask
//!        9   u16  countdown ticks
//! ---- 11 bytes: everything a bot written against protocol v1 reads ----
//!       11   u8   flags: bit 0 paused, bit 1 can_start, bit 2 player_control,
//!                 bit 3 server_bots
//!       12   u8   min players
//!       13   u8   seat count N
//!       14   N x  { u8 seat flags (bit 0 occupied, bit 1 stale, bit 2 bot,
//!                                  bit 3 bot_fill),
//!                   u8 name length, name bytes (UTF-8, <= 24) }
//! ```
//!
//! The tail is appended rather than inserted, so a bot that reads the first
//! eleven bytes and ignores the rest keeps working unchanged. Offsets count
//! the five-byte frame header; the payload below starts at offset 5.

use vstd::prelude::*;
use vstd::utf8::{decode_utf8, encode_scalar, encode_utf8, valid_utf8};

use crate::codec::{
    client_packet_bytes, le_bytes_u16, le_u16, lemma_le_u16, push_u16, ClientPacket, Field, ProtoError,
    Reader,
};
use crate::domain::Action;
use crate::domain::{lobby_state_code, LobbyState};
use crate::text::{chars_of, slice_of, string_of, trim, trimmed};

verus! {

broadcast use vstd::utf8::encode_utf8_valid_utf8, vstd::utf8::encode_utf8_decode_utf8,
    vstd::utf8::char_is_scalar;

/// A seat name is sent with at most this many bytes.
pub const MAX_NAME_BYTES: usize = 24;

#[derive(Debug, Clone, PartialEq, Eq)]
pub struct LobbyStatus {
    pub tick: u32,
    pub state: LobbyState,
    pub players_connected: u8,
    pub max_players: u8,
    /// Bit `i` set means seat `i` is taken.
    pub slot_mask: u8,
    /// Ticks left in the start countdown; 0 outside `Countdown`.
    pub countdown_ticks: u16,
    /// The appended tail. `None` only when decoding a frame from a server that
    /// predates it.
    pub details: Option<LobbyDetails>,
}

#[derive(Debug, Clone, PartialEq, Eq)]
pub struct LobbyDetails {
    pub paused: bool,
    /// The server's own answer to "would Start succeed right now".
    pub can_start: bool,
    /// Whether seated players may send Start / Pause / Resume / Abort.
    pub player_control: bool,
    /// Whether this server can fill seats with its own bots.
    pub server_bots: bool,
    pub min_players: u8,
    pub seats: Vec<SeatStatus>,
}

#[derive(Debug, Clone, PartialEq, Eq)]
pub struct SeatStatus {
    pub occupied: bool,
    /// The seat has not sent anything for longer than the server's threshold.
    pub stale: bool,
    /// The seat is held by one of the server's own bots.
    pub bot: bool,
    /// The seat is filled by a server bot whenever no player holds it.
    pub bot_fill: bool,
    pub name: String,
}

pub struct SeatStatusView {
    pub occupied: bool,
    pub stale: bool,
    pub bot: bool,
    pub bot_fill: bool,
    pub name: Seq<char>,
}

pub struct LobbyDetailsView {
    pub paused: bool,
    pub can_start: bool,
    pub player_control: bool,
    pub server_bots: bool,
    pub min_players: u8,
    pub seats: Seq<SeatStatusView>,
}

pub struct LobbyStatusView {
    pub tick: u32,
    pub state: LobbyState,
    pub players_connected: u8,
    pub max_players: u8,
    pub slot_mask: u8,
    pub countdown_ticks: u16,
    pub details: Option<LobbyDetailsView>,
}

impl View for SeatStatus {
    type V = SeatStatusView;

    open spec fn view(&self) -> SeatStatusView {
        SeatStatusView {
            occupied: self.occupied,
            stale: self.stale,
            bot: self.bot,
            bot_fill: self.bot_fill,
            name: self.name@,
        }
    }
}

pub open spec fn seats_view(seats: Seq<SeatStatus>) -> Seq<SeatStatusView> {
    seats.map_values(|s: SeatStatus| s@)
}

impl View for LobbyDetails {
    type V = LobbyDetailsView;

    open spec fn view(&self) -> LobbyDetailsView {
        LobbyDetailsView {
            paused: self.paused,
            can_start: self.can_start,
            player_control: self.player_control,
            server_bots: self.server_bots,
            min_players: self.min_players,
            seats: seats_view(self.seats@),
        }
    }
}

impl View for LobbyStatus {
    type V = LobbyStatusView;

    open spec fn view(&self) -> LobbyStatusView {
        LobbyStatusView {
            tick: self.tick,
            state: self.state,
            players_connected: self.players_connected,
            max_players: self.max_players,
            slot_mask: self.slot_mask,
            countdown_ticks: self.countdown_ticks,
            details: match self.details {
                Some(d) => Some(d@),
                None => None,
            },
        }
    }
}

// -- the encoding ----------------------------------------------------------------

pub open spec fn flag(b: bool, bit: u8) -> u8 {
    if b {
        bit
    } else {
        0
    }
}

pub open spec fn status_flags(d: LobbyDetailsView) -> u8 {
    flag(d.paused, 1) | flag(d.can_start, 2) | flag(d.player_control, 4) | flag(d.server_bots, 8)
}

pub open spec fn seat_flags(s: SeatStatusView) -> u8 {
    flag(s.occupied, 1) | flag(s.stale, 2) | flag(s.bot, 4) | flag(s.bot_fill, 8)
}

/// Bytes one character takes in UTF-8.
pub open spec fn char_width(c: char) -> int {
    encode_scalar(c as u32).len() as int
}

/// The longest start of `name` whose UTF-8 encoding fits in `budget` bytes:
/// a name is cut at a character boundary, never inside a character.
pub open spec fn fit_name(name: Seq<char>, budget: int) -> Seq<char>
    decreases name.len(),
{
    if name.len() == 0 || char_width(name[0]) > budget {
        Seq::empty()
    } else {
        seq![name[0]] + fit_name(name.drop_first(), budget - char_width(name[0]))
    }
}

pub open spec fn seat_bytes(s: SeatStatusView) -> Seq<u8> {
    let name = encode_utf8(fit_name(s.name, MAX_NAME_BYTES as int));
    seq![seat_flags(s), name.len() as u8] + name
}

pub open spec fn seats_bytes(seats: Seq<SeatStatusView>) -> Seq<u8>
    decreases seats.len(),
{
    if seats.len() == 0 {
        Seq::empty()
    } else {
        seat_bytes(seats[0]) + seats_bytes(seats.drop_first())
    }
}

/// The payload as it goes on the wire, after the frame header.
pub open spec fn status_bytes(st: LobbyStatusView) -> Seq<u8> {
    let head = seq![lobby_state_code(st.state), st.players_connected, st.max_players, st.slot_mask]
        + le_bytes_u16(st.countdown_ticks);
    match st.details {
        None => head,
        Some(d) => head + seq![status_flags(d), d.min_players, (d.seats.len() % 256) as u8]
            + seats_bytes(d.seats),
    }
}

// -- the decoding ------------------------------------------------------------------

/// A name as received: UTF-8 if it is valid, else whatever the lossy
/// decoding makes of it.
pub open spec fn received_name(raw: Seq<u8>) -> Seq<char> {
    if valid_utf8(raw) {
        decode_utf8(raw)
    } else {
        utf8_lossy(raw)
    }
}

/// `String::from_utf8_lossy`: invalid sequences become U+FFFD.
pub uninterp spec fn utf8_lossy(bytes: Seq<u8>) -> Seq<char>;

pub open spec fn state_of_code(code: u8) -> LobbyState {
    if code == 0 {
        LobbyState::Open
    } else if code == 1 {
        LobbyState::Locked
    } else if code == 2 {
        LobbyState::Countdown
    } else if code == 3 {
        LobbyState::Running
    } else {
        LobbyState::MatchOver
    }
}

pub open spec fn truncated(at: int, need: int) -> ProtoError {
    ProtoError::Truncated { at: at as usize, need: need as usize }
}

/// `count` seats read from `b` at `p`: the seats and where they end.
pub open spec fn decode_seats_spec(b: Seq<u8>, p: int, count: nat) -> Result<
    (Seq<SeatStatusView>, int),
    ProtoError,
>
    decreases count,
{
    if count == 0 {
        Ok((Seq::empty(), p))
    } else if p + 1 > b.len() {
        Err(truncated(p, 1))
    } else if p + 2 > b.len() {
        Err(truncated(p + 1, 1))
    } else {
        let len = b[p + 1] as int;
        if p + 2 + len > b.len() {
            Err(truncated(p + 2, p + 2 + len - b.len()))
        } else {
            let f = b[p];
            let seat = SeatStatusView {
                occupied: f & 1 != 0,
                stale: f & 2 != 0,
                bot: f & 4 != 0,
                bot_fill: f & 8 != 0,
                name: received_name(b.subrange(p + 2, p + 2 + len)),
            };
            match decode_seats_spec(b, p + 2 + len, (count - 1) as nat) {
                Ok((rest, e)) => Ok((seq![seat] + rest, e)),
                Err(e) => Err(e),
            }
        }
    }
}

pub open spec fn decode_details_spec(b: Seq<u8>, p: int) -> Result<
    (LobbyDetailsView, int),
    ProtoError,
> {
    if p + 1 > b.len() {
        Err(truncated(p, 1))
    } else if p + 2 > b.len() {
        Err(truncated(p + 1, 1))
    } else if p + 3 > b.len() {
        Err(truncated(p + 2, 1))
    } else {
        let f = b[p];
        match decode_seats_spec(b, p + 3, b[p + 2] as nat) {
            Ok((seats, e)) => Ok(
                (
                    LobbyDetailsView {
                        paused: f & 1 != 0,
                        can_start: f & 2 != 0,
                        player_control: f & 4 != 0,
                        server_bots: f & 8 != 0,
                        min_players: b[p + 1],
                        seats,
                    },
                    e,
                ),
            ),
            Err(e) => Err(e),
        }
    }
}

/// The status read from `b` at `p`, stamped with the frame's `tick`, and
/// where it ends. A payload that stops after the first six bytes comes from
/// a server without the tail: that is a valid status, not a truncated one.
pub open spec fn decode_status_spec(tick: u32, b: Seq<u8>, p: int) -> Result<
    (LobbyStatusView, int),
    ProtoError,
> {
    if p + 1 > b.len() {
        Err(truncated(p, 1))
    } else if b[p] > 4 {
        Err(ProtoError::Invalid { field: Field::LobbyState, value: b[p] })
    } else if p + 2 > b.len() {
        Err(truncated(p + 1, 1))
    } else if p + 3 > b.len() {
        Err(truncated(p + 2, 1))
    } else if p + 4 > b.len() {
        Err(truncated(p + 3, 1))
    } else if p + 6 > b.len() {
        Err(truncated(p + 4, p + 6 - b.len()))
    } else {
        let base = LobbyStatusView {
            tick,
            state: state_of_code(b[p]),
            players_connected: b[p + 1],
            max_players: b[p + 2],
            slot_mask: b[p + 3],
            countdown_ticks: le_u16(b[p + 4], b[p + 5]),
            details: None,
        };
        if p + 6 == b.len() {
            Ok((base, p + 6))
        } else {
            match decode_details_spec(b, p + 6) {
                Ok((d, e)) => Ok((LobbyStatusView { details: Some(d), ..base }, e)),
                Err(e) => Err(e),
            }
        }
    }
}

// -- datagrams ---------------------------------------------------------------------

/// The first byte of a lobby-status frame.
pub const LOBBY_STATUS_KIND: u8 = 0x10;

/// Four bytes read as a little-endian number.
pub open spec fn le_u32(b: Seq<u8>) -> int {
    b[0] + 256 * b[1] + 65536 * b[2] + 16777216 * b[3]
}

/// A lobby-status datagram: its kind byte, the tick as four little-endian
/// bytes, then the status itself. Anything else reads as nothing.
pub open spec fn lobby_frame_spec(bytes: Seq<u8>) -> Option<LobbyStatusView> {
    if bytes.len() < 5 || bytes[0] != LOBBY_STATUS_KIND {
        None
    } else {
        match decode_status_spec(le_u32(bytes.subrange(1, 5)) as u32, bytes.subrange(5, bytes.len() as int), 0) {
            Ok((v, _)) => Some(v),
            Err(_) => None,
        }
    }
}

/// Reads a lobby-status datagram.
pub fn decode_lobby_frame(bytes: &[u8]) -> (r: Option<LobbyStatus>)
    ensures
        match r {
            Some(st) => lobby_frame_spec(bytes@) == Some(st@),
            None => lobby_frame_spec(bytes@) is None,
        },
{
    if bytes.len() < 5 || bytes[0] != LOBBY_STATUS_KIND {
        return None;
    }
    let tick: u32 = bytes[1] as u32 + 256 * (bytes[2] as u32) + 65536 * (bytes[3] as u32) + 16777216
        * (bytes[4] as u32);
    assert(tick == le_u32(bytes@.subrange(1, 5)));
    let rest = vstd::slice::slice_subrange(bytes, 5, bytes.len());
    let mut reader = Reader::new(rest);
    match LobbyStatus::decode(tick, &mut reader) {
        Ok(st) => Some(st),
        Err(_) => None,
    }
}

/// The hello a client greets the server with: the hello packet from no
/// seat yet, then the name without surrounding white space, cut to what a
/// seat can hold.
pub open spec fn hello_spec(name: Seq<char>) -> Seq<u8> {
    client_packet_bytes(ClientPacket { player_id: 0, seq: 0, action: Action::Hello }) + encode_utf8(
        fit_name(trim(name), MAX_NAME_BYTES as int),
    )
}

pub fn hello_bytes(name: &str) -> (b: Vec<u8>)
    ensures
        b@ == hello_spec(name@),
{
    let head = ClientPacket::new(0, 0, Action::Hello).encode();
    let all = chars_of(name);
    let t = trimmed(&all, 0, all.len());
    assert(all@.subrange(0, all@.len() as int) =~= name@);
    let trimmed_name = string_of(&t);
    let tail = truncated_name_bytes(&trimmed_name, MAX_NAME_BYTES);
    let mut b: Vec<u8> = Vec::new();
    b.push(head[0]);
    b.push(head[1]);
    let mut i: usize = 0;
    while i < tail.len()
        invariant
            i <= tail@.len(),
            b@ == head@ + tail@.take(i as int),
        decreases tail.len() - i,
    {
        b.push(tail[i]);
        assert(b@ =~= head@ + tail@.take(i as int + 1));
        i = i + 1;
    }
    assert(tail@.take(tail@.len() as int) =~= tail@);
    b
}

// -- trusted std call --------------------------------------------------------------

/// Decodes bytes with `String::from_utf8_lossy`. Trusted: the contract
/// names its result [`utf8_lossy`] of the bytes, and, as its documentation
/// says, for valid UTF-8 that is exactly the decoded text. What it makes of
/// invalid sequences (U+FFFD in their place) is left unsaid.
#[verifier::external_body]
fn string_from_utf8_lossy(bytes: &[u8]) -> (s: String)
    ensures
        s@ == utf8_lossy(bytes@),
        valid_utf8(bytes@) ==> s@ == decode_utf8(bytes@),
{
    String::from_utf8_lossy(bytes).into_owned()
}

// -- lemmas ------------------------------------------------------------------------

pub proof fn lemma_encode_utf8_concat(a: Seq<char>, b: Seq<char>)
    ensures
        encode_utf8(a + b) == encode_utf8(a) + encode_utf8(b),
    decreases a.len(),
{
    if a.len() > 0 {
        assert((a + b).drop_first() =~= a.drop_first() + b);
        lemma_encode_utf8_concat(a.drop_first(), b);
        assert(encode_utf8(a + b) =~= encode_utf8(a) + encode_utf8(b));
    } else {
        assert(a + b =~= b);
        assert(encode_utf8(a) =~= Seq::<u8>::empty());
        assert(encode_utf8(a) + encode_utf8(b) =~= encode_utf8(b));
    }
}

pub proof fn lemma_encode_one(c: char)
    ensures
        encode_utf8(seq![c]) == encode_scalar(c as u32),
{
    reveal_with_fuel(encode_utf8, 2);
    assert(seq![c].drop_first() =~= Seq::<char>::empty());
    assert(encode_utf8(seq![c]) =~= encode_scalar(c as u32));
}

pub proof fn lemma_fit_name(name: Seq<char>, budget: int)
    ensures
        fit_name(name, budget) =~= name.subrange(0, fit_name(name, budget).len() as int),
        fit_name(name, budget).len() <= name.len(),
        budget >= 0 ==> encode_utf8(fit_name(name, budget)).len() <= budget,
        encode_utf8(name).len() <= budget ==> fit_name(name, budget) == name,
    decreases name.len(),
{
    if name.len() > 0 {
        let w = char_width(name[0]);
        let rest = name.drop_first();
        lemma_fit_name(rest, budget - w);
        assert(encode_utf8(name) == encode_scalar(name[0] as u32) + encode_utf8(rest));
        let f = fit_name(name, budget);
        if w <= budget {
            let r = fit_name(rest, budget - w);
            assert(f == seq![name[0]] + r);
            assert(f =~= name.subrange(0, f.len() as int)) by {
                assert forall|j: int| 0 <= j < f.len() implies f[j] == name[j] by {
                    if j > 0 {
                        assert(f[j] == r[j - 1]);
                        assert(r[j - 1] == rest[j - 1]);
                    }
                }
            }
            lemma_encode_utf8_concat(seq![name[0]], r);
            lemma_encode_one(name[0]);
            assert(name =~= seq![name[0]] + rest);
        } else {
            assert(f =~= Seq::<char>::empty());
            assert(f =~= name.subrange(0, 0));
            assert(encode_utf8(f) =~= Seq::<u8>::empty());
        }
    } else {
        assert(name.subrange(0, 0) =~= name);
        assert(encode_utf8(name) =~= Seq::<u8>::empty());
    }
}

pub proof fn lemma_flag_bits(a: bool, b: bool, c: bool, d: bool)
    ensures
        ({
            let f = flag(a, 1) | flag(b, 2) | flag(c, 4) | flag(d, 8);
            &&& (f & 1 != 0) == a
            &&& (f & 2 != 0) == b
            &&& (f & 4 != 0) == c
            &&& (f & 8 != 0) == d
        }),
{
    let fa = flag(a, 1);
    let fb = flag(b, 2);
    let fc = flag(c, 4);
    let fd = flag(d, 8);
    assert(((fa | fb | fc | fd) & 1 != 0) == (fa != 0) && ((fa | fb | fc | fd) & 2 != 0) == (fb
        != 0) && ((fa | fb | fc | fd) & 4 != 0) == (fc != 0) && ((fa | fb | fc | fd) & 8 != 0) == (
    fd != 0)) by (bit_vector)
        requires
            fa == 0 || fa == 1,
            fb == 0 || fb == 2,
            fc == 0 || fc == 4,
            fd == 0 || fd == 8,
    ;
}

// -- exec --------------------------------------------------------------------------

fn flag_u8(b: bool, bit: u8) -> (r: u8)
    ensures
        r == flag(b, bit),
{
    if b {
        bit
    } else {
        0
    }
}

fn char_width_of(c: char) -> (w: usize)
    ensures
        w == char_width(c),
{
    let u = c as u32;
    proof {
        vstd::utf8::char_is_scalar(c);
    }
    if u <= 0x7F {
        1
    } else if u <= 0x7FF {
        2
    } else if u <= 0xFFFF {
        3
    } else {
        4
    }
}

/// How many characters of `chars` fit in `limit` bytes of UTF-8, and how many
/// bytes they take.
fn fitting(chars: &Vec<char>, limit: usize) -> (r: (usize, usize))
    ensures
        r.0 <= chars@.len(),
        fit_name(chars@, limit as int) == chars@.subrange(0, r.0 as int),
        r.1 == encode_utf8(chars@.subrange(0, r.0 as int)).len(),
        r.1 <= encode_utf8(chars@).len(),
{
    let mut budget = limit;
    let mut n: usize = 0;
    let mut bytes: usize = 0;
    proof {
        assert(chars@.subrange(0, chars@.len() as int) =~= chars@);
        assert(chars@.subrange(0, 0) =~= Seq::<char>::empty());
        assert(Seq::<char>::empty() + fit_name(chars@, limit as int) =~= fit_name(
            chars@,
            limit as int,
        ));
        assert(encode_utf8(Seq::<char>::empty()) =~= Seq::<u8>::empty());
    }
    while n < chars.len()
        invariant
            n <= chars@.len(),
            chars@ == chars@,
            budget + bytes == limit,
            fit_name(chars@, limit as int) == chars@.subrange(0, n as int) + fit_name(
                chars@.subrange(n as int, chars@.len() as int),
                budget as int,
            ),
            bytes == encode_utf8(chars@.subrange(0, n as int)).len(),
        ensures
            n <= chars@.len(),
            budget + bytes == limit,
            fit_name(chars@, limit as int) == chars@.subrange(0, n as int) + fit_name(
                chars@.subrange(n as int, chars@.len() as int),
                budget as int,
            ),
            bytes == encode_utf8(chars@.subrange(0, n as int)).len(),
            fit_name(chars@.subrange(n as int, chars@.len() as int), budget as int)
                =~= Seq::<char>::empty(),
        decreases chars.len() - n,
    {
        let w = char_width_of(chars[n]);
        let ghost rest = chars@.subrange(n as int, chars@.len() as int);
        if w > budget {
            proof {
                assert(rest[0] == chars@[n as int]);
                assert(fit_name(rest, budget as int) =~= Seq::<char>::empty());
            }
            break;
        }
        proof {
            assert(rest[0] == chars@[n as int]);
            assert(rest.drop_first() =~= chars@.subrange(n + 1, chars@.len() as int));
            assert(chars@.subrange(0, n + 1) =~= chars@.subrange(0, n as int) + seq![
                chars@[n as int],
            ]);
            lemma_encode_utf8_concat(chars@.subrange(0, n as int), seq![chars@[n as int]]);
            lemma_encode_one(chars@[n as int]);
        }
        budget = budget - w;
        bytes = bytes + w;
        n = n + 1;
    }
    proof {
        if n == chars@.len() {
            assert(chars@.subrange(n as int, chars@.len() as int) =~= Seq::<char>::empty());
        }
        assert(fit_name(chars@, limit as int) =~= chars@.subrange(0, n as int));
        assert(chars@ =~= chars@.subrange(0, n as int) + chars@.subrange(
            n as int,
            chars@.len() as int,
        ));
        lemma_encode_utf8_concat(
            chars@.subrange(0, n as int),
            chars@.subrange(n as int, chars@.len() as int),
        );
    }
    (n, bytes)
}

/// The part of `text` that fits in `limit` bytes of UTF-8, cut at a
/// character boundary.
pub fn truncate(text: &String, limit: usize) -> (t: String)
    ensures
        t@ == fit_name(text@, limit as int),
{
    let chars = chars_of(text.as_str());
    let (n, _) = fitting(&chars, limit);
    let kept = slice_of(chars.as_slice(), 0, n);
    string_of(kept.as_slice())
}

/// The UTF-8 bytes of the part of `name` that fits in `limit` bytes.
pub fn truncated_name_bytes(name: &String, limit: usize) -> (b: Vec<u8>)
    ensures
        b@ == encode_utf8(fit_name(name@, limit as int)),
{
    let chars = chars_of(name.as_str());
    let (n, bytes) = fitting(&chars, limit);
    proof {
        lemma_encode_utf8_concat(
            chars@.subrange(0, n as int),
            chars@.subrange(n as int, chars@.len() as int),
        );
        assert(chars@ =~= chars@.subrange(0, n as int) + chars@.subrange(
            n as int,
            chars@.len() as int,
        ));
    }
    let all = name.as_str().as_bytes();
    let mut out: Vec<u8> = Vec::new();
    let mut i: usize = 0;
    while i < bytes
        invariant
            i <= bytes,
            bytes <= all@.len(),
            all@ == encode_utf8(name@),
            out@ == all@.subrange(0, i as int),
        decreases bytes - i,
    {
        out.push(all[i]);
        i = i + 1;
        assert(out@ =~= all@.subrange(0, i as int));
    }
    assert(out@ =~= encode_utf8(chars@.subrange(0, n as int)));
    out
}

impl SeatStatus {
    fn encode(&self, out: &mut Vec<u8>)
        ensures
            final(out)@ == old(out)@ + seat_bytes(self@),
    {
        let flags = flag_u8(self.occupied, 1) | flag_u8(self.stale, 2) | flag_u8(self.bot, 4)
            | flag_u8(self.bot_fill, 8);
        let name = truncated_name_bytes(&self.name, MAX_NAME_BYTES);
        proof {
            lemma_fit_name(self.name@, MAX_NAME_BYTES as int);
        }
        out.push(flags);
        out.push(name.len() as u8);
        let mut i: usize = 0;
        let ghost start = out@;
        while i < name.len()
            invariant
                i <= name@.len(),
                out@ == start + name@.subrange(0, i as int),
            decreases name.len() - i,
        {
            out.push(name[i]);
            i = i + 1;
            assert(out@ =~= start + name@.subrange(0, i as int));
        }
        assert(final(out)@ =~= old(out)@ + seat_bytes(self@)) by {
            assert(out@ =~= old(out)@ + seat_bytes(self@));
        }
    }

    /// One seat read from `r`.
    fn decode(r: &mut Reader) -> (res: Result<SeatStatus, ProtoError>)
        requires
            old(r).wf(),
        ensures
            final(r).wf(),
            final(r).bytes() == old(r).bytes(),
            ({
                let spec = decode_seats_spec(old(r).bytes(), old(r).pos(), 1);
                match res {
                    Ok(s) => spec == Ok::<(Seq<SeatStatusView>, int), ProtoError>(
                        (seq![s@], final(r).pos()),
                    ),
                    Err(e) => spec == Err::<(Seq<SeatStatusView>, int), ProtoError>(e),
                }
            }),
    {
        let ghost b = r.bytes();
        let ghost p = r.pos();
        let f = match r.u8() {
            Ok(v) => v,
            Err(e) => return Err(e),
        };
        let len = match r.u8() {
            Ok(v) => v,
            Err(e) => return Err(e),
        };
        let raw = match r.bytes_of(len as usize) {
            Ok(v) => v,
            Err(e) => return Err(e),
        };
        let name = string_from_utf8_lossy(&raw);
        let s = SeatStatus {
            occupied: f & 1 != 0,
            stale: f & 2 != 0,
            bot: f & 4 != 0,
            bot_fill: f & 8 != 0,
            name,
        };
        proof {
            assert(decode_seats_spec(b, p + 2 + len, 0) == Ok::<
                (Seq<SeatStatusView>, int),
                ProtoError,
            >((Seq::empty(), p + 2 + len)));
            assert(seq![s@] + Seq::<SeatStatusView>::empty() =~= seq![s@]);
        }
        Ok(s)
    }
}

pub proof fn lemma_decode_seats_step(b: Seq<u8>, p: int, count: nat)
    requires
        count > 0,
    ensures
        match decode_seats_spec(b, p, 1) {
            Err(e) => decode_seats_spec(b, p, count) == Err::<(Seq<SeatStatusView>, int), ProtoError>(e),
            Ok((s, q)) => decode_seats_spec(b, p, count) == match decode_seats_spec(
                b,
                q,
                (count - 1) as nat,
            ) {
                Ok((rest, e)) => Ok::<(Seq<SeatStatusView>, int), ProtoError>((s + rest, e)),
                Err(e) => Err(e),
            },
        },
{
    if p + 2 <= b.len() && p + 2 + b[p + 1] as int <= b.len() {
        let q = p + 2 + b[p + 1] as int;
        assert(decode_seats_spec(b, q, 0) == Ok::<(Seq<SeatStatusView>, int), ProtoError>(
            (Seq::empty(), q),
        ));
        match decode_seats_spec(b, q, (count - 1) as nat) {
            Ok((rest, e)) => {
                let s = decode_seats_spec(b, p, 1)->Ok_0.0;
                assert(s + Seq::<SeatStatusView>::empty() =~= s);
            },
            Err(e) => {},
        }
    }
}

impl LobbyStatus {
    /// Append the payload to `out`.
    pub fn encode(&self, out: &mut Vec<u8>)
        ensures
            final(out)@ == old(out)@ + status_bytes(self@),
    {
        out.push(self.state.code());
        out.push(self.players_connected);
        out.push(self.max_players);
        out.push(self.slot_mask);
        push_u16(out, self.countdown_ticks);
        let ghost head = out@;
        match &self.details {
            None => {},
            Some(details) => {
                let flags = flag_u8(details.paused, 1) | flag_u8(details.can_start, 2) | flag_u8(
                    details.player_control,
                    4,
                ) | flag_u8(details.server_bots, 8);
                out.push(flags);
                out.push(details.min_players);
                out.push((details.seats.len() % 256) as u8);
                let ghost base = out@;
                let mut i: usize = 0;
                assert(seats_view(details.seats@).subrange(0, details.seats@.len() as int)
                    =~= seats_view(details.seats@));
                while i < details.seats.len()
                    invariant
                        i <= details.seats@.len(),
                        out@ + seats_bytes(seats_view(details.seats@).subrange(
                            i as int,
                            details.seats@.len() as int,
                        )) == base + seats_bytes(seats_view(details.seats@)),
                    decreases details.seats.len() - i,
                {
                    let ghost rest = seats_view(details.seats@).subrange(
                        i as int,
                        details.seats@.len() as int,
                    );
                    proof {
                        assert(rest[0] == details.seats@[i as int]@);
                        assert(rest.drop_first() =~= seats_view(details.seats@).subrange(
                            i + 1,
                            details.seats@.len() as int,
                        ));
                    }
                    details.seats[i].encode(out);
                    i = i + 1;
                    proof {
                        let old_out = out@.subrange(0, out@.len() - seat_bytes(rest[0]).len());
                        assert(seats_bytes(rest) == seat_bytes(rest[0]) + seats_bytes(
                            rest.drop_first(),
                        ));
                    }
                    assert(out@ + seats_bytes(seats_view(details.seats@).subrange(
                        i as int,
                        details.seats@.len() as int,
                    )) =~= base + seats_bytes(seats_view(details.seats@)));
                }
                proof {
                    assert(seats_view(details.seats@).subrange(
                        i as int,
                        details.seats@.len() as int,
                    ) =~= Seq::<SeatStatusView>::empty());
                    assert(out@ =~= base + seats_bytes(seats_view(details.seats@)));
                }
            },
        }
        assert(final(out)@ =~= old(out)@ + status_bytes(self@)) by {
            assert(out@ =~= old(out)@ + status_bytes(self@));
        }
    }

    /// Read the payload from `r`; `tick` comes from the frame header.
    pub fn decode(tick: u32, r: &mut Reader) -> (res: Result<LobbyStatus, ProtoError>)
        requires
            old(r).wf(),
        ensures
            final(r).wf(),
            final(r).bytes() == old(r).bytes(),
            match res {
                Ok(s) => decode_status_spec(tick, old(r).bytes(), old(r).pos()) == Ok::<
                    (LobbyStatusView, int),
                    ProtoError,
                >((s@, final(r).pos())),
                Err(e) => decode_status_spec(tick, old(r).bytes(), old(r).pos()) == Err::<
                    (LobbyStatusView, int),
                    ProtoError,
                >(e),
            },
    {
        let ghost b = r.bytes();
        let ghost p = r.pos();
        let raw = match r.u8() {
            Ok(v) => v,
            Err(e) => return Err(e),
        };
        let state = match LobbyState::from_code(raw) {
            Some(s) => s,
            None => return Err(ProtoError::Invalid { field: Field::LobbyState, value: raw }),
        };
        let players_connected = match r.u8() {
            Ok(v) => v,
            Err(e) => return Err(e),
        };
        let max_players = match r.u8() {
            Ok(v) => v,
            Err(e) => return Err(e),
        };
        let slot_mask = match r.u8() {
            Ok(v) => v,
            Err(e) => return Err(e),
        };
        let countdown_ticks = match r.u16() {
            Ok(v) => v,
            Err(e) => return Err(e),
        };
        assert(state == state_of_code(raw));
        let details = if r.remaining() == 0 {
            None
        } else {
            match decode_details(r) {
                Ok(d) => Some(d),
                Err(e) => return Err(e),
            }
        };
        Ok(
            LobbyStatus {
                tick,
                state,
                players_connected,
                max_players,
                slot_mask,
                countdown_ticks,
                details,
            },
        )
    }
}

pub fn decode_details(r: &mut Reader) -> (res: Result<LobbyDetails, ProtoError>)
    requires
        old(r).wf(),
    ensures
        final(r).wf(),
        final(r).bytes() == old(r).bytes(),
        match res {
            Ok(d) => decode_details_spec(old(r).bytes(), old(r).pos()) == Ok::<
                (LobbyDetailsView, int),
                ProtoError,
            >((d@, final(r).pos())),
            Err(e) => decode_details_spec(old(r).bytes(), old(r).pos()) == Err::<
                (LobbyDetailsView, int),
                ProtoError,
            >(e),
        },
{
    let ghost b = r.bytes();
    let ghost p = r.pos();
    let flags = match r.u8() {
        Ok(v) => v,
        Err(e) => return Err(e),
    };
    let min_players = match r.u8() {
        Ok(v) => v,
        Err(e) => return Err(e),
    };
    let count = match r.u8() {
        Ok(v) => v,
        Err(e) => return Err(e),
    };
    let mut seats: Vec<SeatStatus> = Vec::new();
    let mut i: u8 = 0;
    while i < count
        invariant
            r.wf(),
            r.bytes() == b,
            b == old(r).bytes(),
            p == old(r).pos(),
            p + 3 <= b.len(),
            flags == b[p],
            min_players == b[p + 1],
            i <= count,
            count == b[p + 2],
            match decode_seats_spec(b, r.pos(), (count - i) as nat) {
                Ok((rest, e)) => decode_seats_spec(b, p + 3, count as nat) == Ok::<
                    (Seq<SeatStatusView>, int),
                    ProtoError,
                >((seats_view(seats@) + rest, e)),
                Err(e) => decode_seats_spec(b, p + 3, count as nat) == Err::<
                    (Seq<SeatStatusView>, int),
                    ProtoError,
                >(e),
            },
        decreases count - i,
    {
        let ghost q = r.pos();
        proof {
            lemma_decode_seats_step(b, q, (count - i) as nat);
        }
        let seat = match SeatStatus::decode(r) {
            Ok(s) => s,
            Err(e) => return Err(e),
        };
        let ghost before = seats_view(seats@);
        seats.push(seat);
        proof {
            assert(seats_view(seats@) =~= before + seq![seat@]);
            match decode_seats_spec(b, r.pos(), (count - i - 1) as nat) {
                Ok((rest, e)) => {
                    assert(before + (seq![seat@] + rest) =~= seats_view(seats@) + rest);
                },
                Err(e) => {},
            }
        }
        i = i + 1;
    }
    proof {
        assert(seats_view(seats@) + Seq::<SeatStatusView>::empty() =~= seats_view(seats@));
    }
    Ok(
        LobbyDetails {
            paused: flags & 1 != 0,
            can_start: flags & 2 != 0,
            player_control: flags & 4 != 0,
            server_bots: flags & 8 != 0,
            min_players,
            seats,
        },
    )
}

/// A seat whose name fits the wire unshortened.
pub open spec fn seat_fits(s: SeatStatusView) -> bool {
    encode_utf8(s.name).len() <= MAX_NAME_BYTES
}

/// A status the wire carries without loss: at most 255 seats, each name at
/// most 24 bytes of UTF-8.
pub open spec fn status_fits(st: LobbyStatusView) -> bool {
    match st.details {
        None => true,
        Some(d) => d.seats.len() <= 255 && forall|i: int|
            0 <= i < d.seats.len() ==> seat_fits(#[trigger] d.seats[i]),
    }
}

proof fn lemma_decode_seats_of(b: Seq<u8>, q: int, seats: Seq<SeatStatusView>)
    requires
        0 <= q,
        q + seats_bytes(seats).len() <= b.len(),
        b.subrange(q, q + seats_bytes(seats).len()) == seats_bytes(seats),
        forall|i: int| 0 <= i < seats.len() ==> seat_fits(#[trigger] seats[i]),
    ensures
        decode_seats_spec(b, q, seats.len()) == Ok::<(Seq<SeatStatusView>, int), ProtoError>(
            (seats, q + seats_bytes(seats).len()),
        ),
    decreases seats.len(),
{
    if seats.len() > 0 {
        let s = seats[0];
        let rest = seats.drop_first();
        assert(seat_fits(s));
        lemma_fit_name(s.name, MAX_NAME_BYTES as int);
        let name = encode_utf8(s.name);
        let sb = seat_bytes(s);
        assert(seats_bytes(seats) == sb + seats_bytes(rest));
        assert(b[q] == sb[0]) by {
            assert(b.subrange(q, q + seats_bytes(seats).len())[0] == seats_bytes(seats)[0]);
        }
        assert(b[q + 1] == sb[1]) by {
            assert(b.subrange(q, q + seats_bytes(seats).len())[1] == seats_bytes(seats)[1]);
        }
        assert(b.subrange(q + 2, q + 2 + name.len()) =~= name) by {
            assert forall|j: int| 0 <= j < name.len() implies b[q + 2 + j] == name[j] by {
                assert(b.subrange(q, q + seats_bytes(seats).len())[2 + j] == seats_bytes(
                    seats,
                )[2 + j]);
            }
        }
        lemma_flag_bits(s.occupied, s.stale, s.bot, s.bot_fill);
        let q2 = q + 2 + name.len();
        assert(b.subrange(q2, q2 + seats_bytes(rest).len()) =~= seats_bytes(rest)) by {
            assert forall|j: int| 0 <= j < seats_bytes(rest).len() implies b[q2 + j]
                == seats_bytes(rest)[j] by {
                assert(b.subrange(q, q + seats_bytes(seats).len())[sb.len() + j]
                    == seats_bytes(seats)[sb.len() + j]);
            }
        }
        assert forall|i: int| 0 <= i < rest.len() implies seat_fits(#[trigger] rest[i]) by {
            assert(rest[i] == seats[i + 1]);
        }
        lemma_decode_seats_of(b, q2, rest);
        assert(fit_name(s.name, MAX_NAME_BYTES as int) == s.name);
        assert(sb[1] as int == name.len());
        assert(sb[0] == seat_flags(s));
        assert(valid_utf8(name));
        assert(received_name(b.subrange(q + 2, q2)) == s.name);
        let seat = SeatStatusView {
            occupied: b[q] & 1 != 0,
            stale: b[q] & 2 != 0,
            bot: b[q] & 4 != 0,
            bot_fill: b[q] & 8 != 0,
            name: received_name(b.subrange(q + 2, q + 2 + b[q + 1] as int)),
        };
        assert(seat == s);
        assert(seq![s] + rest =~= seats);
    } else {
        assert(seats =~= Seq::<SeatStatusView>::empty());
    }
}

/// Decoding what [`LobbyStatus::encode`] wrote gives the status back, stamped
/// with the frame's tick, for every status the wire can carry.
pub proof fn lemma_status_round_trip(st: LobbyStatusView)
    requires
        status_fits(st),
    ensures
        decode_status_spec(st.tick, status_bytes(st), 0) == Ok::<(LobbyStatusView, int), ProtoError>(
            (st, status_bytes(st).len() as int),
        ),
{
    let b = status_bytes(st);
    lemma_le_u16(st.countdown_ticks);
    assert(state_of_code(lobby_state_code(st.state)) == st.state);
    match st.details {
        None => {},
        Some(d) => {
            lemma_flag_bits(d.paused, d.can_start, d.player_control, d.server_bots);
            let sb = seats_bytes(d.seats);
            assert(b.subrange(9, 9 + sb.len() as int) =~= sb);
            lemma_decode_seats_of(b, 9, d.seats);
            assert(b[8] as nat == d.seats.len());
        },
    }
}

} // verus!
