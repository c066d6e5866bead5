//! Framing: how a byte stream is cut into control packets.
use crate::bytes::{copy_range, rem_at};
use vstd::prelude::*;

verus! {

/// The largest remaining length that is accepted.
pub const MAX_PACKET: usize = 1048576;

/// Why a stream cannot be cut into packets.
#[derive(Debug, PartialEq, Eq)]
pub enum FrameError {
    /// A packet announced this many bytes, more than `MAX_PACKET`.
    TooLarge(usize),
    /// The remaining length of a packet goes on past its fourth byte.
    BadLength,
}

/// What a prefix of the stream holds.
pub enum Next {
    /// Not a whole packet yet.
    NeedMore,
    /// A packet announcing this many bytes, more than `MAX_PACKET`.
    TooLarge(nat),
    /// A packet whose remaining length goes on past its fourth byte.
    BadLength,
    /// A packet (type, flags, body), and the number of bytes it takes.
    Packet((u8, u8, Seq<u8>), nat),
}

/// `s` starts with four bytes of a remaining length, none of which ends it.
pub open spec fn overlong(s: Seq<u8>) -> bool {
    s.len() >= 4 && s[0] >= 128 && s[1] >= 128 && s[2] >= 128 && s[3] >= 128
}

/// The first packet of `buf`.
pub open spec fn next_packet(buf: Seq<u8>) -> Next {
    if buf.len() == 0 {
        Next::NeedMore
    } else {
        match rem_at(buf.skip(1), 4) {
            None => if overlong(buf.skip(1)) {
                Next::BadLength
            } else {
                Next::NeedMore
            },
            Some((rem, n)) => {
                if rem > MAX_PACKET {
                    Next::TooLarge(rem)
                } else if buf.len() < 1 + n + rem {
                    Next::NeedMore
                } else {
                    Next::Packet(
                        (
                            buf[0] >> 4u8,
                            buf[0] & 0x0f,
                            buf.subrange(1 + n as int, 1 + n + rem as int),
                        ),
                        1 + n + rem,
                    )
                }
            },
        }
    }
}

/// All whole packets of `buf` in order with the number of bytes they take, or
/// what is wrong with the first packet that is refused.
pub open spec fn packets_of(buf: Seq<u8>) -> Result<(Seq<(u8, u8, Seq<u8>)>, nat), FrameError>
    decreases buf.len(),
{
    match next_packet(buf) {
        Next::NeedMore => Ok((Seq::empty(), 0)),
        Next::TooLarge(rem) => Err(FrameError::TooLarge(rem as usize)),
        Next::BadLength => Err(FrameError::BadLength),
        Next::Packet(pkt, used) => {
            if used == 0 || used > buf.len() {
                Ok((Seq::empty(), 0))
            } else {
                match packets_of(buf.skip(used as int)) {
                    Ok((rest, more)) => Ok((seq![pkt] + rest, used + more)),
                    Err(e) => Err(e),
                }
            }
        },
    }
}

/// The number of values that `max` remaining-length bytes can carry.
pub open spec fn rem_range(max: nat) -> nat
    decreases max,
{
    if max == 0 {
        1
    } else {
        128 * rem_range((max - 1) as nat)
    }
}

pub proof fn lemma_rem_at_range(s: Seq<u8>, max: nat)
    ensures
        rem_at(s, max) matches Some((v, n)) ==> v < rem_range(max) && 1 <= n <= max && n <= s.len(),
        1 <= rem_range(max),
    decreases max,
{
    if max > 0 {
        lemma_rem_at_range(s.skip(1), (max - 1) as nat);
    }
}

/// Decodes the remaining length that starts at `pos`, looking at no more than
/// four bytes.
pub fn decode_rem_at(buf: &[u8], pos: usize) -> (r: Option<(usize, usize)>)
    requires
        pos <= buf@.len(),
    ensures
        match r {
            Some((v, n)) => rem_at(buf@.skip(pos as int), 4) == Some((v as nat, n as nat)),
            None => rem_at(buf@.skip(pos as int), 4) is None,
        },
{
    decode_rem_within(buf, pos, 4)
}

fn decode_rem_within(buf: &[u8], pos: usize, max: usize) -> (r: Option<(usize, usize)>)
    requires
        pos <= buf@.len(),
        max <= 4,
    ensures
        match r {
            Some((v, n)) => rem_at(buf@.skip(pos as int), max as nat) == Some((v as nat, n as nat)),
            None => rem_at(buf@.skip(pos as int), max as nat) is None,
        },
    decreases max,
{
    if pos >= buf.len() || max == 0 {
        return None;
    }
    let b: u8 = buf[pos];
    if b < 128 {
        return Some((b as usize, 1));
    }
    proof {
        assert(buf@.skip(pos as int).skip(1) =~= buf@.skip(pos + 1));
        lemma_rem_at_range(buf@.skip(pos + 1), (max - 1) as nat);
        reveal_with_fuel(rem_range, 5);
    }
    match decode_rem_within(buf, pos + 1, max - 1) {
        Some((v, n)) => Some(((b - 128) as usize + 128 * v, n + 1)),
        None => None,
    }
}

/// Whether the four bytes from `pos` on are there and none of them ends a
/// remaining length.
fn is_overlong(buf: &[u8], pos: usize) -> (r: bool)
    requires
        pos <= buf@.len(),
    ensures
        r == overlong(buf@.skip(pos as int)),
{
    buf.len() - pos >= 4 && buf[pos] >= 128 && buf[pos + 1] >= 128 && buf[pos + 2] >= 128
        && buf[pos + 3] >= 128
}

/// Splits `buf` into its whole packets. Returns them with the number of bytes
/// consumed, or what is wrong with the first packet that is refused.
pub fn split_packets(buf: &[u8]) -> (r: Result<(Vec<(u8, u8, Vec<u8>)>, usize), FrameError>)
    ensures
        match r {
            Ok((pkts, used)) => packets_of(buf@) == Ok::<(Seq<(u8, u8, Seq<u8>)>, nat), FrameError>(
                (crate::views::views(pkts@), used as nat),
            ),
            Err(e) => packets_of(buf@) == Err::<(Seq<(u8, u8, Seq<u8>)>, nat), FrameError>(e),
        },
        r matches Ok((pkts, used)) ==> used <= buf@.len(),
{
    let mut pkts: Vec<(u8, u8, Vec<u8>)> = Vec::new();
    let mut consumed: usize = 0;
    assert(buf@.skip(0) =~= buf@);
    loop
        invariant
            consumed <= buf@.len(),
            packets_of(buf@) == (match packets_of(buf@.skip(consumed as int)) {
                Ok((rest, more)) => Ok((crate::views::views(pkts@) + rest, consumed as nat + more)),
                Err(e) => Err(e),
            }),
        decreases buf@.len() - consumed,
    {
        let ghost rest = buf@.skip(consumed as int);
        if consumed == buf.len() {
            return Ok((pkts, consumed));
        }
        let head: u8 = buf[consumed];
        assert(rest.skip(1) =~= buf@.skip(consumed + 1));
        match decode_rem_at(buf, consumed + 1) {
            None => {
                if is_overlong(buf, consumed + 1) {
                    return Err(FrameError::BadLength);
                }
                return Ok((pkts, consumed));
            },
            Some((rem, n)) => {
                proof {
                    lemma_rem_at_range(rest.skip(1), 4);
                }
                if rem > MAX_PACKET {
                    return Err(FrameError::TooLarge(rem));
                }
                if buf.len() - consumed < 1 + n + rem {
                    return Ok((pkts, consumed));
                }
                let from: usize = consumed + 1 + n;
                let body: Vec<u8> = copy_range(buf, from, from + rem);
                let ghost pkt = (head >> 4u8, head & 0x0f, body@);
                assert(body@ =~= rest.subrange(1 + n as int, 1 + n + rem as int));
                assert(rest.skip(1 + n + rem) =~= buf@.skip(consumed + 1 + n + rem));
                let ghost before = crate::views::views(pkts@);
                pkts.push((head >> 4, head & 0x0f, body));
                assert(crate::views::views(pkts@) =~= before.push(pkt));
                consumed = from + rem;
                proof {
                    match packets_of(buf@.skip(consumed as int)) {
                        Ok((more, c)) => {
                            assert(before + (seq![pkt] + more) =~= crate::views::views(pkts@) + more);
                        },
                        Err(_) => {},
                    }
                }
            },
        }
    }
}

} // verus!
