//! Laws of the wire format, byte by byte.
use crate::bytes::{be16, be16_at, rem_at, rem_bytes};
use crate::frame::{next_packet, packets_of, rem_range, FrameError};
use crate::laws::wire::law_rem_round_trip;
use crate::model::message_in;
use crate::packet::{
    connect_of, field_at, framed, id_packet, prefixed, publish_body, publish_head, publish_of,
    publish_packet, subscribe_fields, subscribe_of, unsubscribe_fields, unsubscribe_of,
};
use crate::requests::{
    ack_head, clean_flag, connect_body, connect_packet, forward_id, id_at, is_forward, payload_at,
    starts_publish, subscribe_list, unsubscribe_list, will_flags,
};
use crate::text::text_of;
use vstd::prelude::*;
use vstd::utf8::encode_utf8;

verus! {

// ---- numbers ----

/// A 16-bit number is written high byte first, and read so.
pub proof fn law_be16_bytes(v: u16, s: Seq<u8>, pos: int)
    requires
        0 <= pos,
        pos + 2 <= s.len(),
    ensures
        be16(v).len() == 2,
        256 * be16(v)[0] + be16(v)[1] == v,
        be16_at(s, pos) == 256 * s[pos] + s[pos + 1],
{
}

/// A remaining length is written in as few bytes as will do, seven bits in each,
/// the lowest first; the top bit says that another byte follows.
pub proof fn law_length_bytes(len: nat)
    ensures
        len < 128 ==> rem_bytes(len) == seq![len as u8],
        128 <= len < 16384 ==> rem_bytes(len) == seq![
            (128 + len % 128) as u8,
            (len / 128) as u8,
        ],
        16384 <= len < 2097152 ==> rem_bytes(len) == seq![
            (128 + len % 128) as u8,
            (128 + (len / 128) % 128) as u8,
            (len / 16384) as u8,
        ],
        2097152 <= len < 268435456 ==> rem_bytes(len) == seq![
            (128 + len % 128) as u8,
            (128 + (len / 128) % 128) as u8,
            (128 + (len / 16384) % 128) as u8,
            (len / 2097152) as u8,
        ],
{
    reveal_with_fuel(rem_bytes, 4);
    assert((len / 128) / 128 == len / 16384);
    assert((len / 16384) / 128 == len / 2097152);
    if len < 128 {
    } else if len < 16384 {
        assert(rem_bytes(len) =~= seq![(128 + len % 128) as u8, (len / 128) as u8]);
    } else if len < 2097152 {
        assert(rem_bytes(len / 128) =~= seq![
            (128 + (len / 128) % 128) as u8,
            (len / 16384) as u8,
        ]);
        assert(rem_bytes(len) =~= seq![
            (128 + len % 128) as u8,
            (128 + (len / 128) % 128) as u8,
            (len / 16384) as u8,
        ]);
    } else if len < 268435456 {
        assert(rem_bytes(len / 16384) =~= seq![
            (128 + (len / 16384) % 128) as u8,
            (len / 2097152) as u8,
        ]);
        assert(rem_bytes(len / 128) =~= seq![
            (128 + (len / 128) % 128) as u8,
            (128 + (len / 16384) % 128) as u8,
            (len / 2097152) as u8,
        ]);
        assert(rem_bytes(len) =~= seq![
            (128 + len % 128) as u8,
            (128 + (len / 128) % 128) as u8,
            (128 + (len / 16384) % 128) as u8,
            (len / 2097152) as u8,
        ]);
    }
}

/// A remaining length of up to four bytes is read as the number it stands for.
pub proof fn law_length_read(s: Seq<u8>)
    ensures
        s.len() >= 1 && s[0] < 128 ==> rem_at(s, 4) == Some((s[0] as nat, 1nat)),
        s.len() >= 2 && s[0] >= 128 && s[1] < 128 ==> rem_at(s, 4) == Some(
            ((s[0] - 128 + 128 * s[1]) as nat, 2nat),
        ),
        s.len() >= 3 && s[0] >= 128 && s[1] >= 128 && s[2] < 128 ==> rem_at(s, 4) == Some(
            ((s[0] - 128 + 128 * (s[1] - 128) + 16384 * s[2]) as nat, 3nat),
        ),
        s.len() >= 4 && s[0] >= 128 && s[1] >= 128 && s[2] >= 128 && s[3] < 128 ==> rem_at(s, 4)
            == Some(
            (
                (s[0] - 128 + 128 * (s[1] - 128) + 16384 * (s[2] - 128) + 2097152 * s[3]) as nat,
                4nat,
            ),
        ),
        s.len() >= 4 && s[0] >= 128 && s[1] >= 128 && s[2] >= 128 && s[3] >= 128 ==> rem_at(s, 4)
            is None,
        s.len() < 4 && (forall|i: int| 0 <= i < s.len() ==> #[trigger] s[i] >= 128) ==> rem_at(
            s,
            4,
        ) is None,
{
    reveal_with_fuel(rem_at, 5);
    let (s1, s2, s3) = (s.skip(1), s.skip(1).skip(1), s.skip(1).skip(1).skip(1));
    if s.len() >= 1 {
        assert(s[0] == s[0]);
    }
    if s.len() >= 2 {
        assert(s1[0] == s[1]);
    }
    if s.len() >= 3 {
        assert(s2[0] == s[2]);
    }
    if s.len() >= 4 {
        assert(s3[0] == s[3]);
    }
}

// ---- frames ----

/// A packet is its first byte, the length of its body, and its body.
pub proof fn law_frame_bytes(head: u8, body: Seq<u8>)
    ensures
        ({
            let pkt = framed(head, body);
            let n = rem_bytes(body.len()).len() as int;
            &&& pkt.len() == 1 + n + body.len()
            &&& pkt[0] == head
            &&& pkt.subrange(1, 1 + n) == rem_bytes(body.len())
            &&& pkt.skip(1 + n) == body
        }),
{
    let pkt = framed(head, body);
    let n = rem_bytes(body.len()).len() as int;
    assert(pkt.subrange(1, 1 + n) =~= rem_bytes(body.len()));
    assert(pkt.skip(1 + n) =~= body);
}

/// The type of a packet is the upper half of its first byte, its flags are the
/// lower half.
pub proof fn law_head_halves(head: u8)
    ensures
        head >> 4u8 == head / 16,
        head & 0x0f == head % 16,
{
    assert(head >> 4u8 == head / 16) by (bit_vector);
    assert(head & 0x0f == head % 16) by (bit_vector);
}

/// A packet that is not there in full is waited for, and taken as soon as its
/// last byte is there; one of more than 1048576 bytes is refused.
pub proof fn law_whole_packets_only(head: u8, body: Seq<u8>, k: int)
    requires
        body.len() <= 1048576,
        0 <= k <= framed(head, body).len(),
    ensures
        k < framed(head, body).len() ==> next_packet(framed(head, body).take(k)) is NeedMore,
        k < framed(head, body).len() ==> packets_of(framed(head, body).take(k)) == Ok::<
            (Seq<(u8, u8, Seq<u8>)>, nat),
            FrameError,
        >((Seq::empty(), 0nat)),
        k == framed(head, body).len() ==> packets_of(framed(head, body).take(k)) == Ok::<
            (Seq<(u8, u8, Seq<u8>)>, nat),
            FrameError,
        >((seq![((head / 16) as u8, (head % 16) as u8, body)], k as nat)),
{
    let pkt = framed(head, body);
    let rem = rem_bytes(body.len());
    let n = rem.len() as int;
    let buf = pkt.take(k);
    law_head_halves(head);
    assert(body.len() < rem_range(4)) by {
        reveal_with_fuel(rem_range, 5);
    }
    if k == pkt.len() {
        assert(buf =~= pkt + Seq::<u8>::empty());
        crate::laws::wire::law_frame_round_trip(head, body, Seq::empty());
        assert(buf.skip(k) =~= Seq::<u8>::empty());
        assert(packets_of(Seq::<u8>::empty()) == Ok::<
            (Seq<(u8, u8, Seq<u8>)>, nat),
            FrameError,
        >((Seq::empty(), 0nat)));
        assert(seq![((head / 16) as u8, (head % 16) as u8, body)] + Seq::<
            (u8, u8, Seq<u8>),
        >::empty() =~= seq![((head / 16) as u8, (head % 16) as u8, body)]);
    } else if k >= 1 + n {
        let tail = buf.skip(1 + n);
        assert(buf.skip(1) =~= rem + tail);
        law_rem_round_trip(body.len(), 4, tail);
    } else if k > 0 {
        let s = buf.skip(1);
        law_length_bytes(body.len());
        assert(s =~= rem.take(k - 1));
        assert forall|i: int| 0 <= i < s.len() implies #[trigger] s[i] >= 128 by {
            assert(s[i] == rem[i]);
        }
        law_length_read(s);
        assert(s.len() < 4);
    }
}

/// However its length is written, in `n` bytes that say `rem`, a packet goes up
/// to the end of its body, and what lies behind is cut up in the same way. One
/// that is not there in full is waited for; one of more than 1048576 bytes is
/// refused.
pub proof fn law_cut_one_by_one(buf: Seq<u8>, rem: nat, n: nat)
    requires
        buf.len() > 0,
        rem_at(buf.skip(1), 4) == Some((rem, n)),
    ensures
        rem <= 1048576 && buf.len() < 1 + n + rem ==> packets_of(buf) == Ok::<
            (Seq<(u8, u8, Seq<u8>)>, nat),
            FrameError,
        >((Seq::empty(), 0nat)),
        rem <= 1048576 && buf.len() >= 1 + n + rem ==> ({
            let end = 1 + n + rem;
            let first = (
                (buf[0] / 16) as u8,
                (buf[0] % 16) as u8,
                buf.subrange(1 + n as int, end as int),
            );
            match packets_of(buf.skip(end as int)) {
                Ok((rest, more)) => packets_of(buf) == Ok::<
                    (Seq<(u8, u8, Seq<u8>)>, nat),
                    FrameError,
                >((seq![first] + rest, end + more)),
                Err(e) => packets_of(buf) == Err::<(Seq<(u8, u8, Seq<u8>)>, nat), FrameError>(e),
            }
        }),
        rem > 1048576 ==> packets_of(buf) == Err::<(Seq<(u8, u8, Seq<u8>)>, nat), FrameError>(
            FrameError::TooLarge(rem as usize),
        ),
{
    law_head_halves(buf[0]);
}

/// A length that goes on past its fourth byte is refused; one that has not ended
/// before is waited for.
pub proof fn law_length_in_four_bytes(buf: Seq<u8>)
    requires
        forall|i: int| 1 <= i < buf.len() && i <= 4 ==> #[trigger] buf[i] >= 128,
    ensures
        buf.len() >= 5 ==> packets_of(buf) == Err::<(Seq<(u8, u8, Seq<u8>)>, nat), FrameError>(
            FrameError::BadLength,
        ),
        buf.len() < 5 ==> packets_of(buf) == Ok::<(Seq<(u8, u8, Seq<u8>)>, nat), FrameError>(
            (Seq::empty(), 0nat),
        ),
{
    if buf.len() > 0 {
        let s = buf.skip(1);
        assert forall|i: int| 0 <= i < s.len() && i < 4 implies #[trigger] s[i] >= 128 by {
            assert(s[i] == buf[i + 1]);
        }
        law_length_read(s);
    }
}

/// The limit on the size of a packet is 1048576 bytes.
pub proof fn law_size_limit(head: u8, len: nat, tail: Seq<u8>)
    requires
        len < 268435456,
    ensures
        ({
            let s = seq![head] + rem_bytes(len) + tail;
            &&& next_packet(s) is TooLarge <==> len > 1048576
            &&& len > 1048576 ==> packets_of(s) == Err::<
                (Seq<(u8, u8, Seq<u8>)>, nat),
                FrameError,
            >(FrameError::TooLarge(len as usize))
            &&& len <= 1048576 ==> (next_packet(s) is Packet <==> tail.len() >= len)
        }),
{
    let s = seq![head] + rem_bytes(len) + tail;
    assert(len < rem_range(4)) by {
        reveal_with_fuel(rem_range, 5);
    }
    law_rem_round_trip(len, 4, tail);
    assert(s.skip(1) =~= rem_bytes(len) + tail);
}

/// A packet that carries a packet id takes four bytes.
pub proof fn law_id_packet_bytes(head: u8, pid: u16)
    ensures
        id_packet(head, pid) == seq![head, 2u8, (pid / 256) as u8, (pid % 256) as u8],
{
    law_length_bytes(2);
    assert(id_packet(head, pid) =~= seq![head, 2u8, (pid / 256) as u8, (pid % 256) as u8]);
}

// ---- fields ----

/// A field is its length in two bytes, high byte first, and its bytes.
pub proof fn law_field_bytes(s: Seq<u8>)
    requires
        s.len() < 65536,
    ensures
        prefixed(s).len() == 2 + s.len(),
        256 * prefixed(s)[0] + prefixed(s)[1] == s.len(),
        prefixed(s).skip(2) == s,
{
    assert(prefixed(s).skip(2) =~= s);
}

/// A field is read if it is there in full.
pub proof fn law_field_read(s: Seq<u8>, pos: int)
    requires
        0 <= pos <= s.len(),
    ensures
        ({
            let n = 256 * s[pos] + s[pos + 1];
            let whole = pos + 2 <= s.len() && pos + 2 + n <= s.len();
            &&& field_at(s, pos) is Some <==> whole
            &&& whole ==> field_at(s, pos) == Some((s.subrange(pos + 2, pos + 2 + n), pos + 2 + n))
        }),
{
}

// ---- PUBLISH ----

/// The first byte of a PUBLISH: type 3, then DUP, two bits of QoS, and retain.
pub proof fn law_publish_first_byte(qos: u8, dup: bool, retain: bool)
    requires
        qos < 4,
    ensures
        publish_head(qos, dup, retain) == 48 + (if dup {
            8int
        } else {
            0
        }) + 2 * qos + (if retain {
            1int
        } else {
            0
        }),
{
    let d: u8 = if dup {
        0x08
    } else {
        0
    };
    let r: u8 = if retain {
        0x01
    } else {
        0
    };
    assert(0x30u8 | (qos << 1u8) | d | r == 48 + d + 2 * qos + r) by (bit_vector)
        requires
            qos < 4,
            d == 0 || d == 8,
            r == 0 || r == 1,
    ;
}

/// The bytes of a PUBLISH: the first byte, the length, the topic as a field,
/// the packet id if there is one, and the payload.
pub proof fn law_publish_bytes(
    topic: Seq<u8>,
    payload: Seq<u8>,
    qos: u8,
    pid: Option<u16>,
    dup: bool,
    retain: bool,
)
    requires
        topic.len() < 65536,
        qos < 4,
    ensures
        ({
            let body = publish_body(topic, pid, payload);
            let pkt = publish_packet(topic, payload, qos, pid, dup, retain);
            let at = 2 + topic.len() as int;
            &&& pkt == seq![publish_head(qos, dup, retain)] + rem_bytes(body.len()) + body
            &&& 256 * body[0] + body[1] == topic.len()
            &&& body.subrange(2, at) == topic
            &&& pid matches Some(p) ==> body.len() == at + 2 + payload.len() && 256 * body[at]
                + body[at + 1] == p && body.skip(at + 2) == payload
            &&& pid is None ==> body.len() == at + payload.len() && body.skip(at) == payload
        }),
{
    let body = publish_body(topic, pid, payload);
    let at = 2 + topic.len() as int;
    assert(body.subrange(2, at) =~= topic);
    match pid {
        Some(p) => {
            assert(body[at] == be16(p)[0] && body[at + 1] == be16(p)[1]);
            assert(body.skip(at + 2) =~= payload);
        },
        None => {
            assert(body.skip(at) =~= payload);
        },
    }
}

/// A PUBLISH is read field by field: QoS and retain from the flags, the topic,
/// the packet id at QoS 1 and above, and the rest as the payload. It is refused
/// if it holds fewer than three bytes or ends within a field.
pub proof fn law_publish_read(flags: u8, body: Seq<u8>)
    requires
        flags < 16,
    ensures
        ({
            let n = 256 * body[0] + body[1];
            let at = 2 + n;
            let qos = (flags / 2) % 4;
            let whole = body.len() >= 3 && at <= body.len() && (qos > 0 ==> at + 2 <= body.len());
            &&& publish_of(flags, body) is Some <==> whole
            &&& whole ==> publish_of(flags, body) == Some(
                (
                    text_of(body.subrange(2, at)),
                    qos as u8,
                    if qos > 0 {
                        Some((256 * body[at] + body[at + 1]) as u16)
                    } else {
                        None
                    },
                    body.skip(if qos > 0 {
                        at + 2
                    } else {
                        at
                    }),
                    flags % 2 == 1,
                ),
            )
        }),
{
    assert((flags >> 1u8) & 0x03 == (flags / 2) % 4 && (flags & 0x01 != 0) == (flags % 2 == 1))
        by (bit_vector)
        requires
            flags < 16,
    ;
}

/// Of the packets in a queue only those of type 3 carry a message; it is read
/// behind the length, whatever the size of that.
pub proof fn law_message_in_queue(head: u8, body: Seq<u8>)
    requires
        body.len() < 268435456,
    ensures
        head / 16 != 3 ==> message_in(framed(head, body)) is None,
        head / 16 == 3 ==> (message_in(framed(head, body)) is Some <==> publish_of(
            (head % 16) as u8,
            body,
        ) is Some),
        head / 16 == 3 ==> (publish_of((head % 16) as u8, body) matches Some(f) ==> message_in(
            framed(head, body),
        ) == Some((f.0, f.3, f.1))),
{
    let pkt = framed(head, body);
    let rem = rem_bytes(body.len());
    law_head_halves(head);
    assert(body.len() < rem_range(4)) by {
        reveal_with_fuel(rem_range, 5);
    }
    law_rem_round_trip(body.len(), 4, body);
    assert(pkt.skip(1) =~= rem + body);
    assert(pkt.skip(1 + rem.len() as int) =~= body);
    assert(pkt[0] == head);
}

// ---- CONNECT ----

/// A CONNECT is read field by field: behind the protocol name and level come
/// the flags, the keepalive and the client id; with the will flag, also the
/// will's topic and message, and its QoS and retain from the flags.
pub proof fn law_connect_read(body: Seq<u8>)
    requires
        body.len() >= 12,
        body.len() >= 8 + 256 * body[0] + body[1],
    ensures
        ({
            let p = 256 * body[0] + body[1];
            let flags = body[3 + p];
            let will = (flags / 4) % 2 == 1;
            match field_at(body, 6 + p) {
                None => connect_of(body) is None,
                Some((cid, p1)) => if !will {
                    connect_of(body) == Some(
                        (
                            text_of(cid),
                            (256 * body[4 + p] + body[5 + p]) as u16,
                            false,
                            0u8,
                            false,
                            Seq::<char>::empty(),
                            Seq::<u8>::empty(),
                            (flags / 2) % 2 == 1,
                        ),
                    )
                } else {
                    match field_at(body, p1) {
                        None => connect_of(body) is None,
                        Some((topic, p2)) => match field_at(body, p2) {
                            None => connect_of(body) is None,
                            Some((msg, _)) => connect_of(body) == Some(
                                (
                                    text_of(cid),
                                    (256 * body[4 + p] + body[5 + p]) as u16,
                                    true,
                                    ((flags / 8) % 4) as u8,
                                    (flags / 32) % 2 == 1,
                                    text_of(topic),
                                    msg,
                                    (flags / 2) % 2 == 1,
                                ),
                            ),
                        },
                    }
                },
            }
        }),
{
    let p = be16_at(body, 0);
    let flags = body[3 + p];
    assert(((flags >> 1u8) & 0x01 == 1) == ((flags / 2) % 2 == 1) && ((flags >> 2u8) & 0x01 == 1)
        == ((flags / 4) % 2 == 1) && (flags >> 3u8) & 0x03 == (flags / 8) % 4 && ((flags >> 5u8)
        & 0x01 == 1) == ((flags / 32) % 2 == 1)) by (bit_vector);
}

/// A CONNECT that is too short for its fixed part is refused.
pub proof fn law_short_connect(body: Seq<u8>)
    requires
        body.len() < 12 || body.len() < 8 + 256 * body[0] + body[1],
    ensures
        connect_of(body) is None,
{
}

/// The bytes of a CONNECT at protocol level 4.
pub proof fn law_connect_bytes(flags: u8, keepalive: u16, cid: Seq<u8>, tail: Seq<u8>)
    requires
        cid.len() < 65536,
    ensures
        ({
            let body = connect_body(flags, keepalive, cid, tail);
            &&& body.take(8) == seq![0u8, 4, 77, 81, 84, 84, 4, flags]
            &&& 256 * body[8] + body[9] == keepalive
            &&& 256 * body[10] + body[11] == cid.len()
            &&& body.subrange(12, 12 + cid.len() as int) == cid
            &&& body.skip(12 + cid.len() as int) == tail
        }),
{
    let body = connect_body(flags, keepalive, cid, tail);
    assert(body.take(8) =~= seq![0u8, 4, 77, 81, 84, 84, 4, flags]);
    assert(body[8] == be16(keepalive)[0] && body[9] == be16(keepalive)[1]);
    assert(body.subrange(12, 12 + cid.len() as int) =~= cid);
    assert(body.skip(12 + cid.len() as int) =~= tail);
}

/// The flags of a CONNECT: 2 for a clean session, 4 for a will, 8 times its QoS,
/// 32 for a will that is to be retained.
pub proof fn law_connect_flags(clean: bool, retain: bool, qos: u8)
    requires
        qos < 4,
    ensures
        ({
            let c: int = if clean {
                2
            } else {
                0
            };
            let r: int = if retain {
                32
            } else {
                0
            };
            &&& clean_flag(clean) == c
            &&& will_flags(clean, retain, qos) == c + 4 + 8 * qos + r
        }),
{
    let c: u8 = if clean {
        2
    } else {
        0
    };
    let r: u8 = if retain {
        0x20
    } else {
        0
    };
    assert(c | 0x04 | ((qos & 0x03) << 3u8) | r == c + 4 + 8 * qos + r) by (bit_vector)
        requires
            qos < 4,
            c == 0 || c == 2,
            r == 0 || r == 0x20,
    ;
}

// ---- lists of filters ----

/// The filters of a SUBSCRIBE stand one behind the other, each as a field
/// followed by its QoS.
pub proof fn law_subscribe_bytes(
    a: Seq<(Seq<char>, u8)>,
    b: Seq<(Seq<char>, u8)>,
    e: (Seq<char>, u8),
)
    ensures
        subscribe_list(Seq::empty()) == Seq::<u8>::empty(),
        subscribe_list(seq![e]) == prefixed(encode_utf8(e.0)).push(e.1),
        subscribe_list(a + b) == subscribe_list(a) + subscribe_list(b),
    decreases a.len(),
{
    let one = seq![e];
    assert(one.skip(1) =~= Seq::empty());
    assert(subscribe_list(one.skip(1)) == Seq::<u8>::empty());
    assert(subscribe_list(one) =~= prefixed(encode_utf8(e.0)).push(e.1));
    if a.len() == 0 {
        assert(a + b =~= b);
        assert(subscribe_list(a + b) =~= subscribe_list(a) + subscribe_list(b));
    } else {
        assert((a + b).skip(1) =~= a.skip(1) + b);
        law_subscribe_bytes(a.skip(1), b, e);
        assert(subscribe_list(a + b) =~= subscribe_list(a) + subscribe_list(b));
    }
}

/// The filters of an UNSUBSCRIBE stand one behind the other as fields.
pub proof fn law_unsubscribe_bytes(a: Seq<Seq<char>>, b: Seq<Seq<char>>, f: Seq<char>)
    ensures
        unsubscribe_list(Seq::empty()) == Seq::<u8>::empty(),
        unsubscribe_list(seq![f]) == prefixed(encode_utf8(f)),
        unsubscribe_list(a + b) == unsubscribe_list(a) + unsubscribe_list(b),
    decreases a.len(),
{
    let one = seq![f];
    assert(one.skip(1) =~= Seq::empty());
    assert(unsubscribe_list(one.skip(1)) == Seq::<u8>::empty());
    assert(unsubscribe_list(one) =~= prefixed(encode_utf8(f)));
    if a.len() == 0 {
        assert(a + b =~= b);
        assert(unsubscribe_list(a + b) =~= unsubscribe_list(a) + unsubscribe_list(b));
    } else {
        assert((a + b).skip(1) =~= a.skip(1) + b);
        law_unsubscribe_bytes(a.skip(1), b, f);
        assert(unsubscribe_list(a + b) =~= unsubscribe_list(a) + unsubscribe_list(b));
    }
}

/// A SUBSCRIBE of fewer than three bytes is refused, and so is one whose first
/// filter is not there in full or has no QoS behind it. UNSUBSCRIBE needs the
/// filter alone.
pub proof fn law_short_lists(body: Seq<u8>)
    ensures
        body.len() < 3 ==> subscribe_of(body) is None && unsubscribe_of(body) is None,
        body.len() >= 4 && 4 + 256 * body[2] + body[3] >= body.len() ==> subscribe_of(
            body,
        ) is None,
        body.len() >= 4 && 4 + 256 * body[2] + body[3] > body.len() ==> unsubscribe_of(
            body,
        ) is None,
{
}

/// A CONNECT without a will: first byte 16, protocol MQTT at level 4, the flag
/// of a clean session or none, a keepalive of 60 seconds, and the name.
pub proof fn law_connect_sent(cid: Seq<char>, clean: bool)
    ensures
        connect_packet(cid, clean) == framed(
            16,
            seq![0u8, 4, 77, 81, 84, 84, 4] + seq![
                if clean {
                    2u8
                } else {
                    0
                },
                0,
                60,
            ] + prefixed(encode_utf8(cid)),
        ),
{
    let flags: u8 = if clean {
        2
    } else {
        0
    };
    assert(connect_body(flags, 60, encode_utf8(cid), Seq::empty()) =~= seq![
        0u8,
        4,
        77,
        81,
        84,
        84,
        4,
    ] + seq![flags, 0, 60] + prefixed(encode_utf8(cid)));
}

/// A SUBSCRIBE is read filter by filter: a field, then a byte whose two lowest
/// bits are the QoS. One byte that is left over at the end is passed over; a
/// filter that is cut short spoils the whole.
pub proof fn law_subscribe_read(body: Seq<u8>, pos: int)
    requires
        0 <= pos <= body.len(),
    ensures
        ({
            let n = 256 * body[pos] + body[pos + 1];
            let end = pos + 2 + n;
            &&& pos + 2 > body.len() ==> subscribe_fields(body, pos) == Some(
                Seq::<(Seq<u8>, u8)>::empty(),
            )
            &&& pos + 2 <= body.len() <= end ==> subscribe_fields(body, pos) is None
            &&& end < body.len() ==> match subscribe_fields(body, end + 1) {
                None => subscribe_fields(body, pos) is None,
                Some(rest) => subscribe_fields(body, pos) == Some(
                    seq![(body.subrange(pos + 2, end), body[end] % 4)] + rest,
                ),
            }
        }),
{
    let n = 256 * body[pos] + body[pos + 1];
    if pos + 2 + n < body.len() {
        let q = body[pos + 2 + n];
        assert(q & 3 == q % 4) by (bit_vector);
    }
}

/// An UNSUBSCRIBE is read filter by filter in the same way, without the byte
/// behind each.
pub proof fn law_unsubscribe_read(body: Seq<u8>, pos: int)
    requires
        0 <= pos <= body.len(),
    ensures
        ({
            let n = 256 * body[pos] + body[pos + 1];
            let end = pos + 2 + n;
            &&& pos + 2 > body.len() ==> unsubscribe_fields(body, pos) == Some(
                Seq::<Seq<u8>>::empty(),
            )
            &&& pos + 2 <= body.len() < end ==> unsubscribe_fields(body, pos) is None
            &&& end <= body.len() ==> match unsubscribe_fields(body, end) {
                None => unsubscribe_fields(body, pos) is None,
                Some(rest) => unsubscribe_fields(body, pos) == Some(
                    seq![body.subrange(pos + 2, end)] + rest,
                ),
            }
        }),
{
}

/// Behind the packet id both packets hold their filters, as text.
pub proof fn law_lists_read(body: Seq<u8>, i: int)
    requires
        body.len() >= 3,
    ensures
        match subscribe_fields(body, 2) {
            None => subscribe_of(body) is None,
            Some(raw) => {
                &&& subscribe_of(body) matches Some((pid, topics))
                &&& pid == 256 * body[0] + body[1]
                &&& topics.len() == raw.len()
                &&& 0 <= i < raw.len() ==> topics[i] == (text_of(raw[i].0), raw[i].1)
            },
        },
        match unsubscribe_fields(body, 2) {
            None => unsubscribe_of(body) is None,
            Some(raw) => {
                &&& unsubscribe_of(body) matches Some((pid, filters))
                &&& pid == 256 * body[0] + body[1]
                &&& filters.len() == raw.len()
                &&& 0 <= i < raw.len() ==> filters[i] == text_of(raw[i])
            },
        },
{
}

// ---- the client's side ----

/// A PUBLISH carries a packet id exactly at QoS 1 and above, and an
/// acknowledgement its type in the upper half of the first byte; PUBREL also
/// carries the flags 2.
pub proof fn law_client_heads(qos: u8, pid: u16, ptype: u8)
    requires
        ptype < 16,
    ensures
        qos == 0 ==> id_at(qos, pid) is None,
        qos > 0 ==> id_at(qos, pid) == Some(pid),
        ptype != 6 ==> ack_head(ptype) == 16 * ptype,
        ack_head(6) == 98,
{
    assert((ptype << 4u8) | 0u8 == 16 * ptype) by (bit_vector)
        requires
            ptype < 16,
    ;
    assert((6u8 << 4u8) | 0x02u8 == 98) by (bit_vector);
}

/// What a client reads of a forwarded PUBLISH is what was written.
pub proof fn law_forward_read(topic: Seq<u8>, pid: Option<u16>, payload: Seq<u8>, qos: u8)
    requires
        topic.len() < 65536,
        qos > 0 <==> pid is Some,
    ensures
        ({
            let body = publish_body(topic, pid, payload);
            &&& is_forward(body, qos)
            &&& forward_id(body, qos) == pid
            &&& body.skip(payload_at(body, qos)) == payload
            &&& body.subrange(2, 2 + be16_at(body, 0)) == topic
        }),
{
    let body = publish_body(topic, pid, payload);
    law_publish_bytes(topic, payload, 0, pid, false, false);
    assert(be16_at(body, 0) == topic.len());
}

/// A forwarded PUBLISH can be read exactly if its topic, and at QoS 1 and above
/// its packet id, are there in full.
pub proof fn law_forward_readable(body: Seq<u8>, qos: u8)
    ensures
        is_forward(body, qos) <==> body.len() >= 2 && 2 + 256 * body[0] + body[1] + (if qos > 0 {
            2int
        } else {
            0
        }) <= body.len(),
{
}

/// Bytes start with a PUBLISH if the upper half of the first is 3.
pub proof fn law_starts_publish(d: Seq<u8>)
    ensures
        starts_publish(d) <==> d.len() > 0 && 48 <= d[0] < 64,
{
    if d.len() > 0 {
        law_head_halves(d[0]);
    }
}

} // verus!
