//! Control packets: the ones the broker sends and the ones it reads.
use crate::bytes::{
    append_bytes, be16, be16_at, copy_range, encode_rem, join_be16, push_be16, rem_bytes,
};
use crate::text::{text_of, decode_text};
use crate::views::views;
use vstd::prelude::*;

verus! {

broadcast use crate::views::group_views;

pub const CONNECT: u8 = 1;
pub const CONNACK: u8 = 2;
pub const PUBLISH: u8 = 3;
pub const PUBACK: u8 = 4;
pub const PUBREC: u8 = 5;
pub const PUBREL: u8 = 6;
pub const PUBCOMP: u8 = 7;
pub const SUBSCRIBE: u8 = 8;
pub const SUBACK: u8 = 9;
pub const UNSUBSCRIBE: u8 = 10;
pub const UNSUBACK: u8 = 11;
pub const PINGREQ: u8 = 12;
pub const PINGRESP: u8 = 13;
pub const DISCONNECT: u8 = 14;

/// A packet with first byte `head` and body `body`.
pub open spec fn framed(head: u8, body: Seq<u8>) -> Seq<u8> {
    seq![head] + rem_bytes(body.len()) + body
}

/// Writes a packet with first byte `head` and body `body`.
pub fn frame_packet(head: u8, body: &[u8]) -> (pkt: Vec<u8>)
    ensures
        pkt@ == framed(head, body@),
{
    let mut pkt: Vec<u8> = Vec::new();
    pkt.push(head);
    encode_rem(body.len(), &mut pkt);
    append_bytes(&mut pkt, body);
    assert(pkt@ =~= framed(head, body@));
    pkt
}

/// A packet that carries nothing but a packet id.
pub open spec fn id_packet(head: u8, pid: u16) -> Seq<u8> {
    framed(head, be16(pid))
}

fn build_id_packet(head: u8, pid: u16) -> (pkt: Vec<u8>)
    ensures
        pkt@ == id_packet(head, pid),
{
    let mut body: Vec<u8> = Vec::new();
    push_be16(&mut body, pid);
    assert(body@ =~= be16(pid));
    frame_packet(head, body.as_slice())
}

/// The answer to CONNECT: no session present, accepted.
pub fn build_connack() -> (pkt: Vec<u8>)
    ensures
        pkt@ == seq![0x20u8, 0x02, 0x00, 0x00],
{
    let pkt: Vec<u8> = vec![0x20, 0x02, 0x00, 0x00];
    assert(pkt@ =~= seq![0x20u8, 0x02, 0x00, 0x00]);
    pkt
}

/// The answer to SUBSCRIBE: the packet id, then one granted QoS per filter.
pub fn build_suback(pid: u16, grants: &[u8]) -> (pkt: Vec<u8>)
    ensures
        pkt@ == framed(0x90, be16(pid) + grants@),
{
    let mut body: Vec<u8> = Vec::new();
    push_be16(&mut body, pid);
    append_bytes(&mut body, grants);
    assert(body@ =~= be16(pid) + grants@);
    frame_packet(0x90, body.as_slice())
}

/// The answer to UNSUBSCRIBE.
pub fn build_unsuback(pid: u16) -> (pkt: Vec<u8>)
    ensures
        pkt@ == id_packet(0xB0, pid),
{
    build_id_packet(0xB0, pid)
}

/// The answer to a QoS 1 PUBLISH.
pub fn build_puback(pid: u16) -> (pkt: Vec<u8>)
    ensures
        pkt@ == id_packet(0x40, pid),
{
    build_id_packet(0x40, pid)
}

/// The first answer to a QoS 2 PUBLISH.
pub fn build_pubrec(pid: u16) -> (pkt: Vec<u8>)
    ensures
        pkt@ == id_packet(0x50, pid),
{
    build_id_packet(0x50, pid)
}

/// The release of a QoS 2 message; its fixed header flags are 0x02.
pub fn build_pubrel(pid: u16) -> (pkt: Vec<u8>)
    ensures
        pkt@ == id_packet(0x62, pid),
{
    build_id_packet(0x62, pid)
}

/// The end of a QoS 2 exchange.
pub fn build_pubcomp(pid: u16) -> (pkt: Vec<u8>)
    ensures
        pkt@ == id_packet(0x70, pid),
{
    build_id_packet(0x70, pid)
}

/// The answer to PINGREQ.
pub fn build_pingresp() -> (pkt: Vec<u8>)
    ensures
        pkt@ == seq![0xD0u8, 0x00],
{
    let pkt: Vec<u8> = vec![0xD0, 0x00];
    assert(pkt@ =~= seq![0xD0u8, 0x00]);
    pkt
}

/// The first byte of a PUBLISH.
pub open spec fn publish_head(qos: u8, dup: bool, retain: bool) -> u8 {
    0x30 | (qos << 1u8) | (if dup {
        0x08
    } else {
        0u8
    }) | (if retain {
        0x01
    } else {
        0u8
    })
}

/// A length-prefixed string. The prefix has 16 bits: only the low 16 bits of
/// the length are kept.
pub open spec fn prefixed(s: Seq<u8>) -> Seq<u8> {
    be16((s.len() % 65536) as u16) + s
}

/// Appends a length-prefixed string.
pub fn push_prefixed(buf: &mut Vec<u8>, s: &[u8])
    ensures
        final(buf)@ == old(buf)@ + prefixed(s@),
{
    let ghost before = buf@;
    push_be16(buf, (s.len() % 65536) as u16);
    append_bytes(buf, s);
    assert(buf@ =~= before + prefixed(s@));
}

/// The body of a PUBLISH: topic, packet id if there is one, payload.
pub open spec fn publish_body(topic: Seq<u8>, pid: Option<u16>, payload: Seq<u8>) -> Seq<u8> {
    prefixed(topic) + (match pid {
        Some(p) => be16(p),
        None => Seq::empty(),
    }) + payload
}

/// A PUBLISH.
pub open spec fn publish_packet(
    topic: Seq<u8>,
    payload: Seq<u8>,
    qos: u8,
    pid: Option<u16>,
    dup: bool,
    retain: bool,
) -> Seq<u8> {
    framed(publish_head(qos, dup, retain), publish_body(topic, pid, payload))
}

/// Writes a PUBLISH for a subscriber.
pub fn build_forward(
    topic: &[u8],
    payload: &[u8],
    qos: u8,
    pid: Option<u16>,
    dup: bool,
    retain: bool,
) -> (pkt: Vec<u8>)
    ensures
        pkt@ == publish_packet(topic@, payload@, qos, pid, dup, retain),
{
    let dup_bit: u8 = if dup {
        0x08
    } else {
        0
    };
    let retain_bit: u8 = if retain {
        0x01
    } else {
        0
    };
    let head: u8 = 0x30 | (qos << 1) | dup_bit | retain_bit;
    let mut body: Vec<u8> = Vec::new();
    push_prefixed(&mut body, topic);
    if let Some(p) = pid {
        push_be16(&mut body, p);
    }
    append_bytes(&mut body, payload);
    assert(body@ =~= publish_body(topic@, pid, payload@));
    frame_packet(head, body.as_slice())
}

/// The length-prefixed field at `pos`, and the position behind it.
pub open spec fn field_at(s: Seq<u8>, pos: int) -> Option<(Seq<u8>, int)> {
    if pos + 2 > s.len() {
        None
    } else {
        let end = pos + 2 + be16_at(s, pos);
        if end > s.len() {
            None
        } else {
            Some((s.subrange(pos + 2, end), end))
        }
    }
}

/// Reads the length-prefixed field at `pos`: its bytes, and the position behind
/// it.
pub fn read_field(s: &[u8], pos: usize) -> (r: Option<(Vec<u8>, usize)>)
    requires
        pos <= s@.len(),
    ensures
        match r {
            Some((v, end)) => field_at(s@, pos as int) == Some((v@, end as int)) && end <= s@.len(),
            None => field_at(s@, pos as int) is None,
        },
{
    if s.len() - pos < 2 {
        return None;
    }
    let n: usize = join_be16(s[pos], s[pos + 1]) as usize;
    if s.len() - pos - 2 < n {
        return None;
    }
    Some((copy_range(s, pos + 2, pos + 2 + n), pos + 2 + n))
}

/// What a CONNECT body says, strings still undecoded: client id, keepalive,
/// will flag, will QoS, will retain, will topic, will message, clean session.
pub open spec fn connect_fields(body: Seq<u8>) -> Option<
    (Seq<u8>, u16, bool, u8, bool, Seq<u8>, Seq<u8>, bool),
> {
    let plen = be16_at(body, 0);
    if body.len() < 12 || body.len() < 8 + plen {
        None
    } else {
        let flags = body[3 + plen];
        let keepalive = be16_at(body, 4 + plen);
        let clean = (flags >> 1u8) & 0x01 == 1;
        match field_at(body, 6 + plen) {
            None => None,
            Some((cid, p1)) => if (flags >> 2u8) & 0x01 == 1 {
                match field_at(body, p1) {
                    None => None,
                    Some((topic, p2)) => match field_at(body, p2) {
                        None => None,
                        Some((msg, _)) => Some(
                            (
                                cid,
                                keepalive,
                                true,
                                (flags >> 3u8) & 0x03,
                                (flags >> 5u8) & 0x01 == 1,
                                topic,
                                msg,
                                clean,
                            ),
                        ),
                    },
                }
            } else {
                Some((cid, keepalive, false, 0, false, Seq::empty(), Seq::empty(), clean))
            },
        }
    }
}

/// Takes a CONNECT body apart.
pub fn split_connect(body: &[u8]) -> (r: Option<
    (Vec<u8>, u16, bool, u8, bool, Vec<u8>, Vec<u8>, bool),
>)
    ensures
        match r {
            Some(f) => connect_fields(body@) == Some(f@),
            None => connect_fields(body@) is None,
        },
{
    if body.len() < 12 {
        return None;
    }
    let plen: usize = join_be16(body[0], body[1]) as usize;
    if body.len() < 8 + plen {
        return None;
    }
    let flags: u8 = body[3 + plen];
    let keepalive: u16 = join_be16(body[4 + plen], body[5 + plen]);
    let clean: bool = (flags >> 1) & 0x01 == 1;
    match read_field(body, 6 + plen) {
        None => None,
        Some((cid, p1)) => {
            if (flags >> 2) & 0x01 == 1 {
                match read_field(body, p1) {
                    None => None,
                    Some((topic, p2)) => match read_field(body, p2) {
                        None => None,
                        Some((msg, _)) => {
                            let qos: u8 = (flags >> 3) & 0x03;
                            let retain: bool = (flags >> 5) & 0x01 == 1;
                            Some((cid, keepalive, true, qos, retain, topic, msg, clean))
                        },
                    },
                }
            } else {
                let none_topic: Vec<u8> = Vec::new();
                let none_msg: Vec<u8> = Vec::new();
                Some((cid, keepalive, false, 0, false, none_topic, none_msg, clean))
            }
        },
    }
}

/// What a CONNECT body says: client id, keepalive, will flag, will QoS, will
/// retain, will topic, will message, clean session.
pub open spec fn connect_of(body: Seq<u8>) -> Option<
    (Seq<char>, u16, bool, u8, bool, Seq<char>, Seq<u8>, bool),
> {
    match connect_fields(body) {
        None => None,
        Some(f) => Some(
            (
                text_of(f.0),
                f.1,
                f.2,
                f.3,
                f.4,
                if f.2 {
                    text_of(f.5)
                } else {
                    Seq::empty()
                },
                f.6,
                f.7,
            ),
        ),
    }
}

/// Reads a CONNECT body.
pub fn parse_connect(body: &[u8]) -> (r: Option<
    (String, u16, bool, u8, bool, String, Vec<u8>, bool),
>)
    ensures
        match r {
            Some(f) => connect_of(body@) == Some(f@),
            None => connect_of(body@) is None,
        },
{
    match split_connect(body) {
        None => None,
        Some((cid, keepalive, will, qos, retain, topic, msg, clean)) => {
            let name: String = decode_text(cid.as_slice());
            let will_topic: String = if will {
                decode_text(topic.as_slice())
            } else {
                String::new()
            };
            Some((name, keepalive, will, qos, retain, will_topic, msg, clean))
        },
    }
}

/// The (filter, requested QoS) pairs from `pos` to the end.
pub open spec fn subscribe_fields(body: Seq<u8>, pos: int) -> Option<Seq<(Seq<u8>, u8)>>
    decreases body.len() - pos,
{
    if pos + 2 > body.len() {
        Some(Seq::empty())
    } else {
        match field_at(body, pos) {
            None => None,
            Some((filter, end)) => if end + 1 > body.len() || end < pos {
                None
            } else {
                match subscribe_fields(body, end + 1) {
                    None => None,
                    Some(rest) => Some(seq![(filter, body[end] & 0x03)] + rest),
                }
            },
        }
    }
}

/// Takes a SUBSCRIBE body apart.
pub fn split_subscribe(body: &[u8]) -> (r: Option<(u16, Vec<(Vec<u8>, u8)>)>)
    ensures
        match r {
            Some((pid, topics)) => body@.len() >= 3 && pid == be16_at(body@, 0) && subscribe_fields(
                body@,
                2,
            ) == Some(views(topics@)),
            None => body@.len() < 3 || subscribe_fields(body@, 2) is None,
        },
{
    if body.len() < 3 {
        return None;
    }
    let pid: u16 = join_be16(body[0], body[1]);
    let mut pos: usize = 2;
    let mut out: Vec<(Vec<u8>, u8)> = Vec::new();
    while body.len() - pos >= 2
        invariant
            2 <= pos <= body@.len(),
            subscribe_fields(body@, 2) == (match subscribe_fields(body@, pos as int) {
                None => None,
                Some(rest) => Some(views(out@) + rest),
            }),
        decreases body@.len() - pos,
    {
        match read_field(body, pos) {
            None => {
                return None;
            },
            Some((filter, end)) => {
                if end == body.len() {
                    return None;
                }
                let ghost entry = (filter@, body@[end as int] & 0x03);
                let ghost before = views(out@);
                out.push((filter, body[end] & 0x03));
                assert(views(out@) =~= before.push(entry));
                proof {
                    match subscribe_fields(body@, end + 1) {
                        Some(rest) => {
                            assert(before + (seq![entry] + rest) =~= views(out@) + rest);
                        },
                        None => {},
                    }
                }
                pos = end + 1;
            },
        }
    }
    Some((pid, out))
}

/// The pairs of `s` with their first halves decoded.
pub open spec fn decoded_filters(s: Seq<(Seq<u8>, u8)>) -> Seq<(Seq<char>, u8)> {
    s.map_values(|e: (Seq<u8>, u8)| (text_of(e.0), e.1))
}

/// What a SUBSCRIBE body says: the packet id and the (filter, QoS) pairs.
pub open spec fn subscribe_of(body: Seq<u8>) -> Option<(u16, Seq<(Seq<char>, u8)>)> {
    if body.len() < 3 {
        None
    } else {
        match subscribe_fields(body, 2) {
            None => None,
            Some(s) => Some((be16_at(body, 0), decoded_filters(s))),
        }
    }
}

/// Reads a SUBSCRIBE body.
pub fn parse_subscribe(body: &[u8]) -> (r: Option<(u16, Vec<(String, u8)>)>)
    ensures
        match r {
            Some((pid, topics)) => subscribe_of(body@) == Some((pid, views(topics@))),
            None => subscribe_of(body@) is None,
        },
{
    match split_subscribe(body) {
        None => None,
        Some((pid, raw)) => {
            let mut topics: Vec<(String, u8)> = Vec::new();
            let mut i: usize = 0;
            while i < raw.len()
                invariant
                    i <= raw@.len(),
                    views(topics@) =~= decoded_filters(views(raw@)).take(i as int),
                decreases raw@.len() - i,
            {
                let filter: String = decode_text(raw[i].0.as_slice());
                assert(views(raw@)[i as int] == (raw@[i as int].0@, raw@[i as int].1));
                topics.push((filter, raw[i].1));
                i += 1;
            }
            assert(views(topics@) =~= decoded_filters(views(raw@)));
            Some((pid, topics))
        },
    }
}

/// The filters from `pos` to the end.
pub open spec fn unsubscribe_fields(body: Seq<u8>, pos: int) -> Option<Seq<Seq<u8>>>
    decreases body.len() - pos,
{
    if pos + 2 > body.len() {
        Some(Seq::empty())
    } else {
        match field_at(body, pos) {
            None => None,
            Some((filter, end)) => if end < pos + 2 {
                None
            } else {
                match unsubscribe_fields(body, end) {
                    None => None,
                    Some(rest) => Some(seq![filter] + rest),
                }
            },
        }
    }
}

/// Takes an UNSUBSCRIBE body apart.
pub fn split_unsubscribe(body: &[u8]) -> (r: Option<(u16, Vec<Vec<u8>>)>)
    ensures
        match r {
            Some((pid, filters)) => body@.len() >= 3 && pid == be16_at(body@, 0)
                && unsubscribe_fields(body@, 2) == Some(views(filters@)),
            None => body@.len() < 3 || unsubscribe_fields(body@, 2) is None,
        },
{
    if body.len() < 3 {
        return None;
    }
    let pid: u16 = join_be16(body[0], body[1]);
    let mut pos: usize = 2;
    let mut out: Vec<Vec<u8>> = Vec::new();
    while body.len() - pos >= 2
        invariant
            2 <= pos <= body@.len(),
            unsubscribe_fields(body@, 2) == (match unsubscribe_fields(body@, pos as int) {
                None => None,
                Some(rest) => Some(views(out@) + rest),
            }),
        decreases body@.len() - pos,
    {
        match read_field(body, pos) {
            None => {
                return None;
            },
            Some((filter, end)) => {
                let ghost entry = filter@;
                let ghost before = views(out@);
                out.push(filter);
                assert(views(out@) =~= before.push(entry));
                proof {
                    match unsubscribe_fields(body@, end as int) {
                        Some(rest) => {
                            assert(before + (seq![entry] + rest) =~= views(out@) + rest);
                        },
                        None => {},
                    }
                }
                pos = end;
            },
        }
    }
    Some((pid, out))
}

/// The strings of `s`, decoded.
pub open spec fn decoded(s: Seq<Seq<u8>>) -> Seq<Seq<char>> {
    s.map_values(|b: Seq<u8>| text_of(b))
}

/// What an UNSUBSCRIBE body says: the packet id and the filters.
pub open spec fn unsubscribe_of(body: Seq<u8>) -> Option<(u16, Seq<Seq<char>>)> {
    if body.len() < 3 {
        None
    } else {
        match unsubscribe_fields(body, 2) {
            None => None,
            Some(s) => Some((be16_at(body, 0), decoded(s))),
        }
    }
}

/// Reads an UNSUBSCRIBE body.
pub fn parse_unsubscribe(body: &[u8]) -> (r: Option<(u16, Vec<String>)>)
    ensures
        match r {
            Some((pid, filters)) => unsubscribe_of(body@) == Some((pid, views(filters@))),
            None => unsubscribe_of(body@) is None,
        },
{
    match split_unsubscribe(body) {
        None => None,
        Some((pid, raw)) => {
            let mut filters: Vec<String> = Vec::new();
            let mut i: usize = 0;
            while i < raw.len()
                invariant
                    i <= raw@.len(),
                    views(filters@) =~= decoded(views(raw@)).take(i as int),
                decreases raw@.len() - i,
            {
                filters.push(decode_text(raw[i].as_slice()));
                i += 1;
            }
            assert(views(filters@) =~= decoded(views(raw@)));
            Some((pid, filters))
        },
    }
}

/// What a PUBLISH says, the topic still undecoded: topic, QoS, packet id,
/// payload, retain.
pub open spec fn publish_fields(flags: u8, body: Seq<u8>) -> Option<
    (Seq<u8>, u8, Option<u16>, Seq<u8>, bool),
> {
    let qos = (flags >> 1u8) & 0x03;
    let retain = flags & 0x01 != 0;
    if body.len() < 3 {
        None
    } else {
        match field_at(body, 0) {
            None => None,
            Some((topic, pos)) => if qos == 0 {
                Some((topic, qos, None, body.skip(pos), retain))
            } else if pos + 2 > body.len() {
                None
            } else {
                Some((topic, qos, Some(be16_at(body, pos)), body.skip(pos + 2), retain))
            },
        }
    }
}

/// Takes a PUBLISH apart.
pub fn split_publish(flags: u8, body: &[u8]) -> (r: Option<
    (Vec<u8>, u8, Option<u16>, Vec<u8>, bool),
>)
    ensures
        match r {
            Some((topic, qos, pid, payload, retain)) => publish_fields(flags, body@) == Some(
                (topic@, qos, pid, payload@, retain),
            ),
            None => publish_fields(flags, body@) is None,
        },
{
    if body.len() < 3 {
        return None;
    }
    let qos: u8 = (flags >> 1) & 0x03;
    let retain: bool = flags & 0x01 != 0;
    match read_field(body, 0) {
        None => None,
        Some((topic, pos)) => {
            if qos == 0 {
                let payload: Vec<u8> = copy_range(body, pos, body.len());
                Some((topic, qos, None, payload, retain))
            } else if body.len() - pos < 2 {
                None
            } else {
                let pid: u16 = join_be16(body[pos], body[pos + 1]);
                let payload: Vec<u8> = copy_range(body, pos + 2, body.len());
                Some((topic, qos, Some(pid), payload, retain))
            }
        },
    }
}

/// What a PUBLISH says: topic, QoS, packet id, payload, retain.
pub open spec fn publish_of(flags: u8, body: Seq<u8>) -> Option<
    (Seq<char>, u8, Option<u16>, Seq<u8>, bool),
> {
    match publish_fields(flags, body) {
        None => None,
        Some(f) => Some((text_of(f.0), f.1, f.2, f.3, f.4)),
    }
}

/// Reads a PUBLISH.
pub fn parse_publish(flags: u8, body: &[u8]) -> (r: Option<
    (String, u8, Option<u16>, Vec<u8>, bool),
>)
    ensures
        match r {
            Some((topic, qos, pid, payload, retain)) => publish_of(flags, body@) == Some(
                (topic@, qos, pid, payload@, retain),
            ),
            None => publish_of(flags, body@) is None,
        },
{
    match split_publish(flags, body) {
        None => None,
        Some((raw, qos, pid, payload, retain)) => {
            let topic: String = decode_text(raw.as_slice());
            Some((topic, qos, pid, payload, retain))
        },
    }
}

} // verus!
