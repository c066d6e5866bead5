//! The client's side: the packets a client sends, and how it reads what the
//! broker forwards to it.
use crate::bytes::{be16, be16_at, copy_range, join_be16, push_be16};
use crate::packet::{
    frame_packet, framed, id_packet, prefixed, publish_packet, push_prefixed, PUBLISH,
};
use crate::text::{decode_text, text_of};
use crate::views::{lemma_filter_next, views};
use vstd::prelude::*;
use vstd::utf8::encode_utf8;

verus! {

broadcast use crate::views::group_views;

/// The keepalive that clients ask for, in seconds.
pub const KEEPALIVE: u16 = 60;

/// The body of a CONNECT at protocol level 4, followed by `tail`.
pub open spec fn connect_body(flags: u8, keepalive: u16, cid: Seq<u8>, tail: Seq<u8>) -> Seq<u8> {
    prefixed(seq![77u8, 81, 84, 84]) + seq![4u8, flags] + be16(keepalive) + prefixed(cid) + tail
}

fn build_connect_body(flags: u8, cid: &str) -> (body: Vec<u8>)
    ensures
        body@ == connect_body(flags, KEEPALIVE, encode_utf8(cid@), Seq::empty()),
{
    let name: [u8; 4] = [77, 81, 84, 84];
    let mut body: Vec<u8> = Vec::new();
    push_prefixed(&mut body, name.as_slice());
    assert(name@ =~= seq![77u8, 81, 84, 84]);
    body.push(4);
    body.push(flags);
    push_be16(&mut body, KEEPALIVE);
    push_prefixed(&mut body, cid.as_bytes());
    assert(body@ =~= connect_body(flags, KEEPALIVE, encode_utf8(cid@), Seq::empty()));
    body
}

/// The CONNECT flag of a clean session.
pub open spec fn clean_flag(clean: bool) -> u8 {
    if clean {
        0x02
    } else {
        0x00
    }
}

/// A CONNECT without a will.
pub open spec fn connect_packet(cid: Seq<char>, clean: bool) -> Seq<u8> {
    framed(0x10, connect_body(clean_flag(clean), KEEPALIVE, encode_utf8(cid), Seq::empty()))
}

/// CONNECT with a clean session.
pub fn pkt_connect(cid: &str) -> (pkt: Vec<u8>)
    ensures
        pkt@ == connect_packet(cid@, true),
{
    pkt_connect_session(cid, true)
}

/// CONNECT with a clean session or one that is kept.
pub fn pkt_connect_session(cid: &str, clean: bool) -> (pkt: Vec<u8>)
    ensures
        pkt@ == connect_packet(cid@, clean),
{
    let flags: u8 = if clean {
        0x02
    } else {
        0x00
    };
    let body: Vec<u8> = build_connect_body(flags, cid);
    frame_packet(0x10, body.as_slice())
}

/// The CONNECT flags of a client with a will.
pub open spec fn will_flags(clean: bool, retain: bool, qos: u8) -> u8 {
    clean_flag(clean) | 0x04 | ((qos & 0x03) << 3u8) | (if retain {
        0x20
    } else {
        0u8
    })
}

/// CONNECT with a last will.
pub fn pkt_connect_will(
    cid: &str,
    clean: bool,
    will_topic: &str,
    will_msg: &[u8],
    will_retain: bool,
    will_qos: u8,
) -> (pkt: Vec<u8>)
    ensures
        pkt@ == framed(
            0x10,
            connect_body(
                will_flags(clean, will_retain, will_qos),
                KEEPALIVE,
                encode_utf8(cid@),
                prefixed(encode_utf8(will_topic@)) + prefixed(will_msg@),
            ),
        ),
{
    let clean_bit: u8 = if clean {
        0x02
    } else {
        0x00
    };
    let retain_bit: u8 = if will_retain {
        0x20
    } else {
        0
    };
    let flags: u8 = clean_bit | 0x04 | ((will_qos & 0x03) << 3) | retain_bit;
    let mut body: Vec<u8> = build_connect_body(flags, cid);
    push_prefixed(&mut body, will_topic.as_bytes());
    push_prefixed(&mut body, will_msg);
    assert(body@ =~= connect_body(
        flags,
        KEEPALIVE,
        encode_utf8(cid@),
        prefixed(encode_utf8(will_topic@)) + prefixed(will_msg@),
    ));
    frame_packet(0x10, body.as_slice())
}

/// The filters of a SUBSCRIBE, each followed by its QoS.
pub open spec fn subscribe_list(topics: Seq<(Seq<char>, u8)>) -> Seq<u8>
    decreases topics.len(),
{
    if topics.len() == 0 {
        Seq::empty()
    } else {
        prefixed(encode_utf8(topics[0].0)) + seq![topics[0].1] + subscribe_list(topics.skip(1))
    }
}

/// SUBSCRIBE to one filter.
pub fn pkt_subscribe(pid: u16, filter: &str, qos: u8) -> (pkt: Vec<u8>)
    ensures
        pkt@ == framed(0x82, be16(pid) + subscribe_list(seq![(filter@, qos)])),
{
    let mut body: Vec<u8> = Vec::new();
    push_be16(&mut body, pid);
    push_prefixed(&mut body, filter.as_bytes());
    body.push(qos);
    proof {
        let topics = seq![(filter@, qos)];
        assert(topics.skip(1) =~= Seq::empty());
        assert(subscribe_list(topics.skip(1)) == Seq::<u8>::empty());
        assert(subscribe_list(topics) == prefixed(encode_utf8(filter@)) + seq![qos]
            + Seq::<u8>::empty());
        assert(body@ =~= be16(pid) + subscribe_list(topics));
    }
    frame_packet(0x82, body.as_slice())
}

/// The filters of an UNSUBSCRIBE.
pub open spec fn unsubscribe_list(filters: Seq<Seq<char>>) -> Seq<u8>
    decreases filters.len(),
{
    if filters.len() == 0 {
        Seq::empty()
    } else {
        prefixed(encode_utf8(filters[0])) + unsubscribe_list(filters.skip(1))
    }
}

/// UNSUBSCRIBE from one filter.
pub fn pkt_unsubscribe(pid: u16, filter: &str) -> (pkt: Vec<u8>)
    ensures
        pkt@ == framed(0xA2, be16(pid) + unsubscribe_list(seq![filter@])),
{
    let mut body: Vec<u8> = Vec::new();
    push_be16(&mut body, pid);
    push_prefixed(&mut body, filter.as_bytes());
    proof {
        let filters = seq![filter@];
        assert(filters.skip(1) =~= Seq::empty());
        assert(unsubscribe_list(filters.skip(1)) == Seq::<u8>::empty());
        assert(unsubscribe_list(filters) == prefixed(encode_utf8(filter@)) + Seq::<u8>::empty());
        assert(body@ =~= be16(pid) + unsubscribe_list(filters));
    }
    frame_packet(0xA2, body.as_slice())
}

/// The packet id that a PUBLISH carries: none at QoS 0.
pub open spec fn id_at(qos: u8, pid: u16) -> Option<u16> {
    if qos > 0 {
        Some(pid)
    } else {
        None
    }
}

/// PUBLISH; only the low two bits of `qos` are sent.
pub fn pub_pkt(pid: u16, topic: &str, payload: &[u8], qos: u8, retain: bool) -> (pkt: Vec<u8>)
    ensures
        pkt@ == publish_packet(
            encode_utf8(topic@),
            payload@,
            qos & 3,
            id_at(qos, pid),
            false,
            retain,
        ),
{
    let id: Option<u16> = if qos > 0 {
        Some(pid)
    } else {
        None
    };
    crate::packet::build_forward(topic.as_bytes(), payload, qos & 3, id, false, retain)
}

/// PUBLISH with packet id 1; only the low two bits of `qos` are sent.
pub fn pkt_publish(topic: &str, payload: &[u8], qos: u8) -> (pkt: Vec<u8>)
    ensures
        pkt@ == publish_packet(
            encode_utf8(topic@),
            payload@,
            qos & 3,
            id_at(qos, 1),
            false,
            false,
        ),
{
    pub_pkt(1, topic, payload, qos, false)
}

/// PUBLISH with the given QoS and packet id.
pub fn pkt_publish_with_id(qos: u8, pid: u16, topic: &str, payload: &[u8]) -> (pkt: Vec<u8>)
    ensures
        pkt@ == publish_packet(
            encode_utf8(topic@),
            payload@,
            qos,
            id_at(qos, pid),
            false,
            false,
        ),
{
    let id: Option<u16> = if qos > 0 {
        Some(pid)
    } else {
        None
    };
    crate::packet::build_forward(topic.as_bytes(), payload, qos, id, false, false)
}

/// PUBLISH at QoS 1.
pub fn pkt_publish_qos1(pid: u16, topic: &str, payload: &[u8]) -> (pkt: Vec<u8>)
    ensures
        pkt@ == publish_packet(encode_utf8(topic@), payload@, 1, Some(pid), false, false),
{
    crate::packet::build_forward(topic.as_bytes(), payload, 1, Some(pid), false, false)
}

/// PUBLISH at QoS 0.
pub fn pkt_publish_qos0(topic: &str, payload: &[u8]) -> (pkt: Vec<u8>)
    ensures
        pkt@ == publish_packet(encode_utf8(topic@), payload@, 0, None, false, false),
{
    crate::packet::build_forward(topic.as_bytes(), payload, 0, None, false, false)
}

/// The first byte of an acknowledgement: PUBREL carries the flags 0x02.
pub open spec fn ack_head(ptype: u8) -> u8 {
    (ptype << 4u8) | (if ptype == 6 {
        0x02
    } else {
        0u8
    })
}

/// An acknowledgement of the given type.
pub fn ack_pkt(ptype: u8, pid: u16) -> (pkt: Vec<u8>)
    ensures
        pkt@ == id_packet(ack_head(ptype), pid),
{
    let flags: u8 = if ptype == 6 {
        0x02
    } else {
        0x00
    };
    let mut body: Vec<u8> = Vec::new();
    push_be16(&mut body, pid);
    assert(body@ =~= be16(pid));
    frame_packet((ptype << 4) | flags, body.as_slice())
}

/// PUBACK.
pub fn pkt_puback(pid: u16) -> (pkt: Vec<u8>)
    ensures
        pkt@ == id_packet(0x40, pid),
{
    crate::packet::build_puback(pid)
}

/// PINGREQ.
pub fn pkt_pingreq() -> (pkt: Vec<u8>)
    ensures
        pkt@ == seq![0xC0u8, 0x00],
{
    let pkt: Vec<u8> = vec![0xC0, 0x00];
    assert(pkt@ =~= seq![0xC0u8, 0x00]);
    pkt
}

/// PINGREQ.
pub fn pkt_ping() -> (pkt: Vec<u8>)
    ensures
        pkt@ == seq![0xC0u8, 0x00],
{
    pkt_pingreq()
}

/// DISCONNECT.
pub fn pkt_disconnect() -> (pkt: Vec<u8>)
    ensures
        pkt@ == seq![0xE0u8, 0x00],
{
    let pkt: Vec<u8> = vec![0xE0, 0x00];
    assert(pkt@ =~= seq![0xE0u8, 0x00]);
    pkt
}

/// A text as a length-prefixed field.
pub fn enc(s: &str) -> (v: Vec<u8>)
    ensures
        v@ == prefixed(encode_utf8(s@)),
{
    let mut v: Vec<u8> = Vec::new();
    push_prefixed(&mut v, s.as_bytes());
    assert(v@ =~= prefixed(encode_utf8(s@)));
    v
}

/// A packet of type `t` with the given flags and body.
pub fn pkt(t: u8, flags: u8, body: &[u8]) -> (r: Vec<u8>)
    ensures
        r@ == framed((t << 4u8) | flags, body@),
{
    frame_packet((t << 4) | flags, body)
}

/// The packet type in a first byte.
pub fn ptype(b0: u8) -> (t: u8)
    ensures
        t == b0 >> 4u8,
        t == b0 / 16,
{
    assert(b0 >> 4u8 == b0 / 16) by (bit_vector);
    b0 >> 4
}

/// Where the payload of a forwarded PUBLISH starts.
pub open spec fn payload_at(body: Seq<u8>, qos: u8) -> int {
    2 + be16_at(body, 0) + (if qos > 0 {
        2int
    } else {
        0
    })
}

/// The body of a PUBLISH at the given QoS is long enough for its fields.
pub open spec fn is_forward(body: Seq<u8>, qos: u8) -> bool {
    body.len() >= 2 && payload_at(body, qos) <= body.len()
}

/// Whether the body of a PUBLISH at the given QoS can be read.
pub fn can_read(body: &[u8], qos: u8) -> (r: bool)
    ensures
        r == is_forward(body@, qos),
{
    if body.len() < 2 {
        return false;
    }
    let tlen: usize = join_be16(body[0], body[1]) as usize;
    let need: usize = if qos > 0 {
        4
    } else {
        2
    };
    tlen + need <= body.len()
}

/// The packet id of a forwarded PUBLISH.
pub open spec fn forward_id(body: Seq<u8>, qos: u8) -> Option<u16> {
    if qos > 0 {
        Some(be16_at(body, 2 + be16_at(body, 0)))
    } else {
        None
    }
}

/// Reads the packet id and the payload of a forwarded PUBLISH.
pub fn parse_fwd(body: &[u8], qos: u8) -> (r: (Option<u16>, Vec<u8>))
    requires
        is_forward(body@, qos),
    ensures
        r.0 == forward_id(body@, qos),
        r.1@ == body@.skip(payload_at(body@, qos)),
{
    let tlen: usize = join_be16(body[0], body[1]) as usize;
    let pos: usize = 2 + tlen;
    if qos > 0 {
        let p: u16 = join_be16(body[pos], body[pos + 1]);
        (Some(p), copy_range(body, pos + 2, body.len()))
    } else {
        (None, copy_range(body, pos, body.len()))
    }
}

/// Reads the topic, the packet id and the payload of a forwarded PUBLISH.
pub fn parse_pub(body: &[u8], qos: u8) -> (r: (String, Option<u16>, Vec<u8>))
    requires
        is_forward(body@, qos),
    ensures
        r.0@ == text_of(body@.subrange(2, 2 + be16_at(body@, 0))),
        r.1 == forward_id(body@, qos),
        r.2@ == body@.skip(payload_at(body@, qos)),
{
    let tlen: usize = join_be16(body[0], body[1]) as usize;
    let raw: Vec<u8> = copy_range(body, 2, 2 + tlen);
    let topic: String = decode_text(raw.as_slice());
    let (pid, payload) = parse_fwd(body, qos);
    (topic, pid, payload)
}

/// Bytes that start with a PUBLISH.
pub open spec fn starts_publish(d: Seq<u8>) -> bool {
    d.len() > 0 && d[0] >> 4u8 == PUBLISH
}

/// How many of the given reads start with a PUBLISH.
pub fn count_pub(datagrams: &[Vec<u8>]) -> (n: usize)
    ensures
        n == views(datagrams@).filter(|d: Seq<u8>| starts_publish(d)).len(),
{
    let ghost all = views(datagrams@);
    let ghost keep = |d: Seq<u8>| starts_publish(d);
    let mut n: usize = 0;
    let mut i: usize = 0;
    proof {
        reveal(Seq::filter);
    }
    while i < datagrams.len()
        invariant
            i <= datagrams@.len(),
            n <= i,
            all == views(datagrams@),
            keep == (|d: Seq<u8>| starts_publish(d)),
            n == all.take(i as int).filter(keep).len(),
        decreases datagrams@.len() - i,
    {
        proof {
            lemma_filter_next(all, i as int, keep);
            assert(all[i as int] == datagrams@[i as int]@);
        }
        let d: &Vec<u8> = &datagrams[i];
        if d.len() > 0 && d[0] >> 4 == PUBLISH {
            n += 1;
        }
        i += 1;
    }
    assert(all.take(i as int) =~= all);
    n
}

/// One step of a client that waits for its share of messages: given how many
/// it has, and the type of the packet just read or `None` at the end of the
/// stream, how many it has now and whether it reads on. Anything but a PUBLISH
/// ends the wait.
pub fn share_step(count: usize, share: usize, got: Option<u8>) -> (r: (usize, bool))
    ensures
        r == (if count < share && got == Some(PUBLISH) {
            ((count + 1) as usize, count + 1 < share)
        } else {
            (count, false)
        }),
        count <= r.0 <= count + 1,
        r.0 > count <==> count < share && got == Some(3u8),
        r.1 <==> r.0 > count && r.0 < share,
{
    match got {
        Some(t) => {
            if count < share && t == PUBLISH {
                (count + 1, count + 1 < share)
            } else {
                (count, false)
            }
        },
        None => (count, false),
    }
}

/// One step of a client that counts messages: given how many it has, and the
/// type of the packet just read or `None` at the end of the stream, how many it
/// has now and whether it reads on. Packets other than PUBLISH are passed over.
pub fn tally_step(count: usize, wanted: usize, got: Option<u8>) -> (r: (usize, bool))
    ensures
        r == (match got {
            None => (count, false),
            Some(t) => if t == PUBLISH && count < wanted {
                ((count + 1) as usize, count + 1 < wanted)
            } else {
                (count, count < wanted)
            },
        }),
        count <= r.0 <= count + 1,
        r.0 > count <==> count < wanted && got == Some(3u8),
        r.1 <==> got is Some && r.0 < wanted,
{
    match got {
        Some(t) => {
            let now: usize = if t == PUBLISH && count < wanted {
                count + 1
            } else {
                count
            };
            (now, now < wanted)
        },
        None => (count, false),
    }
}

} // verus!
