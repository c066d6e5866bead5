//! Byte-level building blocks: big-endian integers, concatenation, and the
//! variable-length "remaining length" of a fixed header.
use vstd::prelude::*;

verus! {

/// The big-endian encoding of a 16-bit integer.
pub open spec fn be16(v: u16) -> Seq<u8> {
    seq![(v / 256) as u8, (v % 256) as u8]
}

/// The 16-bit integer whose big-endian encoding starts at `pos`.
pub open spec fn be16_at(s: Seq<u8>, pos: int) -> u16
    recommends
        0 <= pos,
        pos + 2 <= s.len(),
{
    (s[pos] * 256 + s[pos + 1]) as u16
}

/// Joins two bytes into a 16-bit integer, high byte first.
pub fn join_be16(hi: u8, lo: u8) -> (v: u16)
    ensures
        v == hi * 256 + lo,
{
    (hi as u16) * 256 + (lo as u16)
}

/// Appends the big-endian encoding of `v`.
pub fn push_be16(buf: &mut Vec<u8>, v: u16)
    ensures
        final(buf)@ == old(buf)@ + be16(v),
{
    let ghost before = buf@;
    buf.push((v / 256) as u8);
    buf.push((v % 256) as u8);
    assert(buf@ =~= before + be16(v));
}

/// Appends all of `more`.
pub fn append_bytes(buf: &mut Vec<u8>, more: &[u8])
    ensures
        final(buf)@ == old(buf)@ + more@,
{
    let ghost before = buf@;
    buf.extend_from_slice(more);
    assert(buf@ =~= before + more@);
}

/// The bytes `from..to` of `s` as a vector of their own.
pub fn copy_range(s: &[u8], from: usize, to: usize) -> (v: Vec<u8>)
    requires
        from <= to <= s@.len(),
    ensures
        v@ == s@.subrange(from as int, to as int),
{
    let mut v: Vec<u8> = Vec::new();
    append_bytes(&mut v, vstd::slice::slice_subrange(s, from, to));
    assert(v@ =~= s@.subrange(from as int, to as int));
    v
}

/// A copy of `s`.
pub fn copy_bytes(s: &[u8]) -> (v: Vec<u8>)
    ensures
        v@ == s@,
{
    let mut v: Vec<u8> = Vec::new();
    append_bytes(&mut v, s);
    assert(v@ =~= s@);
    v
}

/// The remaining-length encoding of `len`: seven bits per byte, least
/// significant group first, the top bit set on every byte but the last.
pub open spec fn rem_bytes(len: nat) -> Seq<u8>
    decreases len,
{
    if len < 128 {
        seq![len as u8]
    } else {
        seq![(128 + len % 128) as u8] + rem_bytes(len / 128)
    }
}

/// Appends the remaining-length encoding of `len`.
pub fn encode_rem(len: usize, buf: &mut Vec<u8>)
    ensures
        final(buf)@ == old(buf)@ + rem_bytes(len as nat),
{
    let mut len: usize = len;
    let ghost start = buf@;
    let ghost whole = rem_bytes(len as nat);
    while len >= 128
        invariant
            buf@ + rem_bytes(len as nat) =~= start + whole,
        decreases len,
    {
        let ghost before = buf@;
        let ghost tail = rem_bytes((len / 128) as nat);
        let b: u8 = 128 + (len % 128) as u8;
        buf.push(b);
        assert(before + (seq![b] + tail) =~= buf@ + tail);
        len = len / 128;
    }
    let ghost before = buf@;
    buf.push(len as u8);
    assert(buf@ =~= before + rem_bytes(len as nat));
}

/// The value of the remaining length that `s` starts with, and the number of
/// bytes it takes. At most `max` bytes are looked at; `None` if the encoding
/// does not end within them.
pub open spec fn rem_at(s: Seq<u8>, max: nat) -> Option<(nat, nat)>
    decreases max,
{
    if s.len() == 0 || max == 0 {
        None
    } else if s[0] < 128 {
        Some((s[0] as nat, 1))
    } else {
        match rem_at(s.skip(1), (max - 1) as nat) {
            Some((v, n)) => Some(((s[0] - 128 + 128 * v) as nat, n + 1)),
            None => None,
        }
    }
}

} // verus!
