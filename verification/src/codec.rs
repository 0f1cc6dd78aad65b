//! Byte-level pieces of the wire format: the reading cursor, decoding
//! errors, the two-byte client packet and the seat-bot request.
//!
//! Multi-byte integers are little-endian.

use vstd::prelude::*;

use crate::domain::{action_code, Action};

verus! {

/// What makes a field invalid.
#[derive(Clone, Copy, Debug, PartialEq, Eq, Structural)]
pub enum Field {
    LobbyState,
    SeatBotAction,
    SeatBotEnabled,
}

#[derive(Clone, Copy, Debug, PartialEq, Eq, Structural)]
pub enum ProtoError {
    /// The buffer ended at byte `at`; `need` more were required.
    Truncated { at: usize, need: usize },
    /// A field held a value it may not hold.
    Invalid { field: Field, value: u8 },
}

/// A cursor over received bytes.
pub struct Reader<'a> {
    buf: &'a [u8],
    pos: usize,
}

impl<'a> Reader<'a> {
    pub closed spec fn bytes(&self) -> Seq<u8> {
        self.buf@
    }

    pub closed spec fn pos(&self) -> int {
        self.pos as int
    }

    pub open spec fn wf(&self) -> bool {
        0 <= self.pos() <= self.bytes().len()
    }

    pub fn new(buf: &'a [u8]) -> (r: Reader<'a>)
        ensures
            r.bytes() == buf@,
            r.pos() == 0,
            r.wf(),
    {
        Reader { buf, pos: 0 }
    }

    /// Bytes not yet read.
    pub fn remaining(&self) -> (n: usize)
        requires
            self.wf(),
        ensures
            n == self.bytes().len() - self.pos(),
    {
        self.buf.len() - self.pos
    }

    pub fn position(&self) -> (p: usize)
        ensures
            p == self.pos(),
    {
        self.pos
    }

    pub fn u8(&mut self) -> (r: Result<u8, ProtoError>)
        requires
            old(self).wf(),
        ensures
            final(self).wf(),
            final(self).bytes() == old(self).bytes(),
            old(self).pos() + 1 <= old(self).bytes().len() ==> r == Ok::<u8, ProtoError>(
                old(self).bytes()[old(self).pos()],
            ) && final(self).pos() == old(self).pos() + 1,
            old(self).pos() + 1 > old(self).bytes().len() ==> r == Err::<u8, ProtoError>(
                ProtoError::Truncated { at: old(self).pos() as usize, need: 1 },
            ) && final(self).pos() == old(self).pos(),
    {
        if self.pos < self.buf.len() {
            let b = self.buf[self.pos];
            self.pos = self.pos + 1;
            Ok(b)
        } else {
            Err(ProtoError::Truncated { at: self.pos, need: 1 })
        }
    }

    /// A little-endian `u16`.
    pub fn u16(&mut self) -> (r: Result<u16, ProtoError>)
        requires
            old(self).wf(),
        ensures
            final(self).wf(),
            final(self).bytes() == old(self).bytes(),
            old(self).pos() + 2 <= old(self).bytes().len() ==> r == Ok::<u16, ProtoError>(
                le_u16(old(self).bytes()[old(self).pos()], old(self).bytes()[old(self).pos() + 1]),
            ) && final(self).pos() == old(self).pos() + 2,
            old(self).pos() + 2 > old(self).bytes().len() ==> r == Err::<u16, ProtoError>(
                ProtoError::Truncated {
                    at: old(self).pos() as usize,
                    need: (old(self).pos() + 2 - old(self).bytes().len()) as usize,
                },
            ) && final(self).pos() == old(self).pos(),
    {
        if self.buf.len() - self.pos >= 2 {
            let lo = self.buf[self.pos];
            let hi = self.buf[self.pos + 1];
            self.pos = self.pos + 2;
            Ok(lo as u16 + (hi as u16) * 256)
        } else {
            Err(ProtoError::Truncated { at: self.pos, need: 2 - (self.buf.len() - self.pos) })
        }
    }

    /// The next `n` bytes.
    pub fn bytes_of(&mut self, n: usize) -> (r: Result<Vec<u8>, ProtoError>)
        requires
            old(self).wf(),
        ensures
            final(self).wf(),
            final(self).bytes() == old(self).bytes(),
            old(self).pos() + n <= old(self).bytes().len() ==> r is Ok && r->Ok_0@ == old(
                self,
            ).bytes().subrange(old(self).pos(), old(self).pos() + n) && final(self).pos() == old(
                self,
            ).pos() + n,
            old(self).pos() + n > old(self).bytes().len() ==> r == Err::<Vec<u8>, ProtoError>(
                ProtoError::Truncated {
                    at: old(self).pos() as usize,
                    need: (old(self).pos() + n - old(self).bytes().len()) as usize,
                },
            ) && final(self).pos() == old(self).pos(),
    {
        if self.buf.len() - self.pos >= n {
            let mut out: Vec<u8> = Vec::new();
            let mut i: usize = 0;
            while i < n
                invariant
                    self.pos + n <= self.buf.len(),
                    i <= n,
                    out@ == self.buf@.subrange(self.pos as int, self.pos + i),
                decreases n - i,
            {
                out.push(self.buf[self.pos + i]);
                i = i + 1;
                assert(out@ =~= self.buf@.subrange(self.pos as int, self.pos + i));
            }
            self.pos = self.pos + n;
            Ok(out)
        } else {
            Err(ProtoError::Truncated { at: self.pos, need: n - (self.buf.len() - self.pos) })
        }
    }
}

pub open spec fn le_u16(lo: u8, hi: u8) -> u16 {
    (lo as int + hi as int * 256) as u16
}

pub open spec fn le_bytes_u16(v: u16) -> Seq<u8> {
    seq![(v % 256) as u8, (v / 256) as u8]
}

pub proof fn lemma_le_u16(v: u16)
    ensures
        le_u16(le_bytes_u16(v)[0], le_bytes_u16(v)[1]) == v,
{
}

pub fn push_u16(out: &mut Vec<u8>, v: u16)
    ensures
        final(out)@ == old(out)@ + le_bytes_u16(v),
{
    out.push((v % 256) as u8);
    out.push((v / 256) as u8);
    assert(final(out)@ =~= old(out)@ + le_bytes_u16(v)) by {
        assert(out@ =~= old(out)@ + le_bytes_u16(v));
    }
}

// -- the client packet ---------------------------------------------------------

/// Every uplink packet starts with these two bytes: who sends, and
/// `(seq << 4) | action`.
#[derive(Clone, Copy, Debug, PartialEq, Eq, Structural)]
pub struct ClientPacket {
    pub player_id: u8,
    /// Four bits; the server drops a sequence number it has just seen.
    pub seq: u8,
    pub action: Action,
}

pub open spec fn packet_byte(seq: u8, action: Action) -> u8 {
    ((seq % 16) * 16 + action_code(action)) as u8
}

pub open spec fn client_packet_bytes(p: ClientPacket) -> Seq<u8> {
    seq![p.player_id, packet_byte(p.seq, p.action)]
}

pub open spec fn decode_client_packet_spec(buf: Seq<u8>) -> Result<ClientPacket, ProtoError> {
    if buf.len() < 2 {
        Err(ProtoError::Truncated { at: buf.len() as usize, need: (2 - buf.len()) as usize })
    } else {
        Ok(
            ClientPacket {
                player_id: buf[0],
                seq: buf[1] / 16,
                action: action_of_code(buf[1] % 16),
            },
        )
    }
}

/// The action a four-bit code names.
pub open spec fn action_of_code(code: u8) -> Action {
    if code == 0 {
        Action::Idle
    } else if code == 1 {
        Action::Up
    } else if code == 2 {
        Action::Down
    } else if code == 3 {
        Action::Left
    } else if code == 4 {
        Action::Right
    } else if code == 5 {
        Action::Bomb
    } else if code == 6 {
        Action::UpBomb
    } else if code == 7 {
        Action::DownBomb
    } else if code == 8 {
        Action::LeftBomb
    } else if code == 9 {
        Action::RightBomb
    } else if code == 10 {
        Action::Start
    } else if code == 11 {
        Action::Pause
    } else if code == 12 {
        Action::Resume
    } else if code == 13 {
        Action::Abort
    } else if code == 14 {
        Action::SeatBot
    } else {
        Action::Hello
    }
}

pub proof fn lemma_action_code_round_trip(a: Action)
    ensures
        action_of_code(action_code(a)) == a,
        action_code(a) < 16,
{
}

impl ClientPacket {
    pub fn new(player_id: u8, seq: u8, action: Action) -> (p: ClientPacket)
        ensures
            p == (ClientPacket { player_id, seq, action }),
    {
        ClientPacket { player_id, seq, action }
    }

    pub fn encode(&self) -> (b: [u8; 2])
        ensures
            b@ == client_packet_bytes(*self),
    {
        let code = self.action.code();
        let byte = (self.seq % 16) * 16 + code;
        let b = [self.player_id, byte];
        assert(b@ =~= client_packet_bytes(*self));
        b
    }

    pub fn decode(buf: &[u8]) -> (r: Result<ClientPacket, ProtoError>)
        ensures
            r == decode_client_packet_spec(buf@),
    {
        if buf.len() < 2 {
            return Err(ProtoError::Truncated { at: buf.len(), need: 2 - buf.len() });
        }
        let code = buf[1] % 16;
        let action = match Action::from_code(code) {
            Some(a) => a,
            None => Action::Hello,
        };
        proof {
            lemma_action_code_round_trip(action);
        }
        Ok(ClientPacket { player_id: buf[0], seq: buf[1] / 16, action })
    }

    pub fn is_hello(&self) -> (r: bool)
        ensures
            r == (self.action == Action::Hello),
    {
        self.action == Action::Hello
    }
}

/// Reading back the two bytes of a packet gives the packet, its sequence
/// number taken modulo 16.
pub proof fn lemma_client_packet_round_trip(p: ClientPacket)
    requires
        p.seq < 16,
    ensures
        decode_client_packet_spec(client_packet_bytes(p)) == Ok::<ClientPacket, ProtoError>(p),
{
    lemma_action_code_round_trip(p.action);
    let b = packet_byte(p.seq, p.action);
    assert(b / 16 == p.seq && b % 16 == action_code(p.action));
}

// -- the seat-bot request ---------------------------------------------------

/// A lobby request to fill one seat with a server-side bot, or to stop.
///
/// ```text
/// byte 0:  player_id                       the sender, as in every packet
/// byte 1:  (seq << 4) | 14
/// byte 2:  seat                            0..=3, the seat to configure
/// byte 3:  1 = fill with a bot, 0 = do not
/// ```
#[derive(Clone, Copy, Debug, PartialEq, Eq, Structural)]
pub struct SeatBotRequest {
    /// Who asks.
    pub player: u8,
    pub seq: u8,
    /// Which seat to configure.
    pub seat: u8,
    pub enabled: bool,
}

pub const SEAT_BOT_REQUEST_LEN: usize = 4;

pub open spec fn seat_bot_bytes(r: SeatBotRequest) -> Seq<u8> {
    client_packet_bytes(ClientPacket { player_id: r.player, seq: r.seq, action: Action::SeatBot })
        + seq![r.seat, if r.enabled { 1u8 } else { 0u8 }]
}

pub open spec fn decode_seat_bot_spec(buf: Seq<u8>) -> Result<SeatBotRequest, ProtoError> {
    match decode_client_packet_spec(buf) {
        Err(e) => Err(e),
        Ok(packet) => {
            if packet.action != Action::SeatBot {
                Err(
                    ProtoError::Invalid {
                        field: Field::SeatBotAction,
                        value: action_code(packet.action),
                    },
                )
            } else if buf.len() < 4 {
                Err(ProtoError::Truncated { at: buf.len() as usize, need: (4 - buf.len()) as usize })
            } else if buf[3] > 1 {
                Err(ProtoError::Invalid { field: Field::SeatBotEnabled, value: buf[3] })
            } else {
                Ok(
                    SeatBotRequest {
                        player: packet.player_id,
                        seq: packet.seq,
                        seat: buf[2],
                        enabled: buf[3] == 1,
                    },
                )
            }
        },
    }
}

impl SeatBotRequest {
    pub fn encode(&self) -> (b: [u8; 4])
        ensures
            b@ == seat_bot_bytes(*self),
    {
        let head = ClientPacket::new(self.player, self.seq, Action::SeatBot).encode();
        let b = [head[0], head[1], self.seat, if self.enabled { 1 } else { 0 }];
        assert(b@ =~= seat_bot_bytes(*self));
        b
    }

    /// Read a request whose first two bytes carry [`Action::SeatBot`].
    pub fn decode(buf: &[u8]) -> (r: Result<SeatBotRequest, ProtoError>)
        ensures
            r == decode_seat_bot_spec(buf@),
    {
        let packet = match ClientPacket::decode(buf) {
            Ok(p) => p,
            Err(e) => return Err(e),
        };
        if packet.action != Action::SeatBot {
            return Err(
                ProtoError::Invalid { field: Field::SeatBotAction, value: packet.action.code() },
            );
        }
        if buf.len() < SEAT_BOT_REQUEST_LEN {
            return Err(
                ProtoError::Truncated { at: buf.len(), need: SEAT_BOT_REQUEST_LEN - buf.len() },
            );
        }
        let enabled = match buf[3] {
            0 => false,
            1 => true,
            other => {
                return Err(ProtoError::Invalid { field: Field::SeatBotEnabled, value: other });
            },
        };
        Ok(SeatBotRequest { player: packet.player_id, seq: packet.seq, seat: buf[2], enabled })
    }
}

/// Decoding an encoded request gives the request back.
pub proof fn lemma_seat_bot_round_trip(r: SeatBotRequest)
    requires
        r.seq < 16,
    ensures
        decode_seat_bot_spec(seat_bot_bytes(r)) == Ok::<SeatBotRequest, ProtoError>(r),
{
    let p = ClientPacket { player_id: r.player, seq: r.seq, action: Action::SeatBot };
    lemma_client_packet_round_trip(p);
    let b = seat_bot_bytes(r);
    assert(b.subrange(0, 2) =~= client_packet_bytes(p));
    assert(b[0] == client_packet_bytes(p)[0] && b[1] == client_packet_bytes(p)[1]);
}

} // verus!
