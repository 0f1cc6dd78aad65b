//! The sound effects the client knows, and the container they are played
//! from: 16-bit mono PCM in a RIFF file.

use vstd::prelude::*;

verus! {

/// Samples per second.
pub const RATE: u32 = 44100;

#[derive(Debug, Clone, Copy, PartialEq, Eq, Structural)]
pub enum Sfx {
    Explosion,
    BombPlaced,
    Pickup,
    Death,
    Beep,
    Go,
    Win,
    Click,
}

/// `v` as four little-endian bytes.
pub open spec fn le32(v: int) -> Seq<u8> {
    seq![(v % 256) as u8, ((v / 256) % 256) as u8, ((v / 65536) % 256) as u8, ((v / 16777216) % 256) as u8]
}

/// `v` as two little-endian bytes.
pub open spec fn le16(v: int) -> Seq<u8> {
    seq![(v % 256) as u8, ((v / 256) % 256) as u8]
}

/// The 44 bytes before `data_len` bytes of 16-bit mono PCM at `RATE`.
pub open spec fn wav_header(data_len: int) -> Seq<u8> {
    seq![82u8, 73u8, 70u8, 70u8] + le32(36 + data_len) + seq![87u8, 65u8, 86u8, 69u8, 102u8, 109u8, 116u8, 32u8]
        + le32(16) + le16(1) + le16(1) + le32(RATE as int) + le32(RATE as int * 2) + le16(2) + le16(16)
        + seq![100u8, 97u8, 116u8, 97u8] + le32(data_len)
}

/// A sample as the two bytes of its two's complement.
pub open spec fn sample_bytes(s: i16) -> Seq<u8> {
    le16(if s < 0 {
        s + 65536
    } else {
        s as int
    })
}

pub open spec fn samples_bytes(samples: Seq<i16>) -> Seq<u8>
    decreases samples.len(),
{
    if samples.len() == 0 {
        Seq::empty()
    } else {
        samples_bytes(samples.drop_last()) + sample_bytes(samples.last())
    }
}

fn push_le32(out: &mut Vec<u8>, v: u32)
    ensures
        final(out)@ == old(out)@ + le32(v as int),
{
    out.push((v % 256) as u8);
    out.push(((v / 256) % 256) as u8);
    out.push(((v / 65536) % 256) as u8);
    out.push(((v / 16777216) % 256) as u8);
    assert(final(out)@ =~= old(out)@ + le32(v as int)) by {
    }
}

fn push_le16(out: &mut Vec<u8>, v: u32)
    requires
        v < 65536,
    ensures
        final(out)@ == old(out)@ + le16(v as int),
{
    out.push((v % 256) as u8);
    out.push(((v / 256) % 256) as u8);
}

fn push_bytes<const N: usize>(out: &mut Vec<u8>, bytes: [u8; N])
    ensures
        final(out)@ == old(out)@ + bytes@,
{
    let ghost start = out@;
    let mut i: usize = 0;
    while i < N
        invariant
            i <= N,
            N == bytes@.len(),
            out@ == start + bytes@.take(i as int),
        decreases N - i,
    {
        out.push(bytes[i]);
        proof {
            assert(out@ =~= start + bytes@.take(i as int + 1));
        }
        i = i + 1;
    }
    proof {
        assert(bytes@.take(N as int) =~= bytes@);
    }
}

/// 16-bit mono PCM in a RIFF container.
pub fn wav(samples: &[i16]) -> (out: Vec<u8>)
    requires
        samples@.len() * 2 + 36 <= u32::MAX,
    ensures
        out@ == wav_header(samples@.len() as int * 2) + samples_bytes(samples@),
{
    broadcast use vstd::array::group_array_axioms;

    let data_len: u32 = (samples.len() * 2) as u32;
    let mut out: Vec<u8> = Vec::new();
    push_bytes(&mut out, [82u8, 73u8, 70u8, 70u8]);
    push_le32(&mut out, 36 + data_len);
    push_bytes(&mut out, [87u8, 65u8, 86u8, 69u8, 102u8, 109u8, 116u8, 32u8]);
    push_le32(&mut out, 16);
    push_le16(&mut out, 1);
    push_le16(&mut out, 1);
    push_le32(&mut out, RATE);
    push_le32(&mut out, RATE * 2);
    push_le16(&mut out, 2);
    push_le16(&mut out, 16);
    push_bytes(&mut out, [100u8, 97u8, 116u8, 97u8]);
    push_le32(&mut out, data_len);
    proof {
        assert([82u8, 73u8, 70u8, 70u8]@ =~= seq![82u8, 73u8, 70u8, 70u8]);
        assert([87u8, 65u8, 86u8, 69u8, 102u8, 109u8, 116u8, 32u8]@ =~= seq![87u8, 65u8, 86u8, 69u8, 102u8, 109u8, 116u8, 32u8]);
        assert([100u8, 97u8, 116u8, 97u8]@ =~= seq![100u8, 97u8, 116u8, 97u8]);
        assert(out@ =~= wav_header(samples@.len() as int * 2));
    }
    let ghost header = out@;
    let mut i: usize = 0;
    while i < samples.len()
        invariant
            i <= samples@.len(),
            out@ == header + samples_bytes(samples@.take(i as int)),
        decreases samples.len() - i,
    {
        proof {
            assert(samples@.take(i as int + 1).drop_last() =~= samples@.take(i as int));
        }
        let s = samples[i];
        let u: u32 = if s < 0 {
            (s as i32 + 65536) as u32
        } else {
            s as u32
        };
        push_le16(&mut out, u);
        proof {
            assert(out@ =~= header + samples_bytes(samples@.take(i as int + 1)));
        }
        i = i + 1;
    }
    proof {
        assert(samples@.take(samples@.len() as int) =~= samples@);
    }
    out
}

} // verus!
