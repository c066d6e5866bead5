//! Laws of the wire format: what is written is read back.
use crate::bytes::{be16, be16_at, rem_at, rem_bytes};
use crate::frame::{
    lemma_rem_at_range, next_packet, overlong, packets_of, rem_range, FrameError, Next, MAX_PACKET,
};
use crate::model::message_in;
use crate::packet::{
    connect_of, decoded, decoded_filters, field_at, framed, prefixed, publish_body, publish_fields,
    publish_head, publish_of, publish_packet, subscribe_fields, subscribe_of, unsubscribe_fields,
    unsubscribe_of, PUBLISH,
};
use crate::requests::{clean_flag, connect_body, subscribe_list, unsubscribe_list, will_flags};
use crate::text::law_text_round_trip;
use crate::threaded::{rem_step, word, RemStep};
use vstd::prelude::*;
use vstd::utf8::encode_utf8;

verus! {

/// A remaining length is read back as it was written, as far as `max` bytes
/// can carry it.
pub proof fn law_rem_round_trip(len: nat, max: nat, tail: Seq<u8>)
    requires
        len < rem_range(max),
        max >= 1,
    ensures
        rem_at(rem_bytes(len) + tail, max) == Some((len, rem_bytes(len).len())),
    decreases max,
{
    let s = rem_bytes(len) + tail;
    if len >= 128 {
        assert(max >= 2) by {
            if max == 1 {
                reveal_with_fuel(rem_range, 2);
            }
        }
        assert(len / 128 < rem_range((max - 1) as nat));
        law_rem_round_trip(len / 128, (max - 1) as nat, tail);
        assert(s.skip(1) =~= rem_bytes(len / 128) + tail);
    }
}

/// A remaining length that is fed byte by byte to a reader.
pub open spec fn feed(bytes: Seq<u8>, rem: usize, mult: usize) -> RemStep
    decreases bytes.len(),
{
    if bytes.len() == 0 {
        RemStep::More { rem, mult }
    } else {
        match rem_step(rem, mult, bytes[0]) {
            RemStep::Done(n) => RemStep::Done(n),
            RemStep::More { rem, mult } => feed(bytes.skip(1), rem, mult),
        }
    }
}

/// A reader that is fed the encoding of any length ends with that length.
pub proof fn law_fed_round_trip(len: usize)
    ensures
        feed(rem_bytes(len as nat), 0, 1) == RemStep::Done(len),
{
    lemma_feed(len as nat, 0, 1);
}

proof fn lemma_word(x: int)
    requires
        0 <= x <= usize::MAX,
    ensures
        word(x) == x,
{
    vstd::arithmetic::div_mod::lemma_small_mod(x as nat, (usize::MAX + 1) as nat);
}

proof fn lemma_feed(len: nat, rem: usize, mult: usize)
    requires
        rem + len * mult <= usize::MAX,
        mult >= 1,
    ensures
        feed(rem_bytes(len), rem, mult) == RemStep::Done((rem + len * mult) as usize),
    decreases len,
{
    let s = rem_bytes(len);
    let low = (len % 128) as int;
    assert(0 <= low * mult <= len * mult) by (nonlinear_arith)
        requires
            0 <= low <= len,
            mult >= 1,
    ;
    assert(s[0] % 128 == low);
    lemma_word(low * mult);
    lemma_word(rem + low * mult);
    if len >= 128 {
        let next = (rem + low * mult) as usize;
        assert(128 * mult <= len * mult) by (nonlinear_arith)
            requires
                len >= 128,
                mult >= 1,
        ;
        lemma_word(mult * 128);
        let high = len / 128;
        let mult2 = (mult * 128) as usize;
        assert(next + high * mult2 == rem + len * mult) by (nonlinear_arith)
            requires
                next == rem + low * mult,
                len == high * 128 + low,
                mult2 == mult * 128,
        ;
        lemma_feed(high, next, mult2);
        assert(s.skip(1) =~= rem_bytes(high));
        assert(rem_step(rem, mult, s[0]) == RemStep::More { rem: next, mult: mult2 });
    } else {
        assert(low == len);
    }
}

/// A packet at the front of a stream is read back as it was written.
pub proof fn law_frame_round_trip(head: u8, body: Seq<u8>, tail: Seq<u8>)
    requires
        body.len() <= MAX_PACKET,
    ensures
        next_packet(framed(head, body) + tail) == Next::Packet(
            (head >> 4u8, head & 0x0f, body),
            framed(head, body).len(),
        ),
{
    let s = framed(head, body) + tail;
    let n = rem_bytes(body.len()).len();
    assert(body.len() < rem_range(4)) by {
        reveal_with_fuel(rem_range, 5);
    }
    law_rem_round_trip(body.len(), 4, body + tail);
    assert(s.skip(1) =~= rem_bytes(body.len()) + (body + tail));
    assert(s.subrange(1 + n as int, 1 + n + body.len() as int) =~= body);
}

/// A packet that announces too much is refused, however little of it has
/// arrived.
pub proof fn law_oversized_refused(head: u8, len: nat, tail: Seq<u8>)
    requires
        MAX_PACKET < len < 268435456,
    ensures
        next_packet(seq![head] + rem_bytes(len) + tail) == Next::TooLarge(len),
{
    let s = seq![head] + rem_bytes(len) + tail;
    assert(len < rem_range(4)) by {
        reveal_with_fuel(rem_range, 5);
    }
    law_rem_round_trip(len, 4, tail);
    assert(s.skip(1) =~= rem_bytes(len) + tail);
}

proof fn lemma_overlong(s: Seq<u8>)
    ensures
        s.len() >= 4 ==> (rem_at(s, 4) is None <==> overlong(s)),
{
    if s.len() >= 4 {
        let (s1, s2, s3) = (s.skip(1), s.skip(1).skip(1), s.skip(1).skip(1).skip(1));
        assert(s1[0] == s[1] && s2[0] == s[2] && s3[0] == s[3]);
        assert(rem_at(s3.skip(1), 0) is None);
        assert(rem_at(s3, 1) is None <==> s[3] >= 128);
        assert(rem_at(s2, 2) is None <==> s[2] >= 128 && s[3] >= 128);
        assert(rem_at(s1, 3) is None <==> s[1] >= 128 && s[2] >= 128 && s[3] >= 128);
    }
}

/// A packet whose remaining length goes on past its fourth byte is refused.
pub proof fn law_bad_length_refused(head: u8, length: Seq<u8>, tail: Seq<u8>)
    requires
        length.len() == 4,
        forall|i: int| 0 <= i < 4 ==> #[trigger] length[i] >= 128,
    ensures
        next_packet(seq![head] + length + tail) == Next::BadLength,
        packets_of(seq![head] + length + tail) == Err::<
            (Seq<(u8, u8, Seq<u8>)>, nat),
            FrameError,
        >(FrameError::BadLength),
{
    let s = seq![head] + length + tail;
    assert(s.skip(1) =~= length + tail);
    assert(length[0] >= 128 && length[1] >= 128 && length[2] >= 128 && length[3] >= 128);
    lemma_overlong(s.skip(1));
}

/// The broker does not wait without end: as many bytes as the longest packet
/// takes hold a whole packet, or one that is refused.
pub proof fn law_no_endless_wait(buf: Seq<u8>)
    requires
        buf.len() >= 5 + MAX_PACKET,
    ensures
        next_packet(buf) !is NeedMore,
{
    lemma_overlong(buf.skip(1));
    lemma_rem_at_range(buf.skip(1), 4);
}

/// The bytes of packets (first byte, body) written one after the other.
pub open spec fn stream(pkts: Seq<(u8, Seq<u8>)>) -> Seq<u8>
    decreases pkts.len(),
{
    if pkts.len() == 0 {
        Seq::empty()
    } else {
        framed(pkts[0].0, pkts[0].1) + stream(pkts.skip(1))
    }
}

/// Packets written one after the other are read back in order, up to a rest
/// that is no whole packet.
pub proof fn law_stream_round_trip(pkts: Seq<(u8, Seq<u8>)>, rest: Seq<u8>)
    requires
        forall|i: int| 0 <= i < pkts.len() ==> (#[trigger] pkts[i]).1.len() <= MAX_PACKET,
        next_packet(rest) is NeedMore,
    ensures
        packets_of(stream(pkts) + rest) == Ok::<(Seq<(u8, u8, Seq<u8>)>, nat), FrameError>(
            (
                pkts.map_values(|p: (u8, Seq<u8>)| (p.0 >> 4u8, p.0 & 0x0f, p.1)),
                stream(pkts).len(),
            ),
        ),
    decreases pkts.len(),
{
    let read = |p: (u8, Seq<u8>)| (p.0 >> 4u8, p.0 & 0x0f, p.1);
    if pkts.len() == 0 {
        assert(stream(pkts) + rest =~= rest);
        assert(pkts.map_values(read) =~= Seq::empty());
    } else {
        let (head, body) = pkts[0];
        let later = pkts.skip(1);
        let tail = stream(later) + rest;
        assert forall|i: int| 0 <= i < later.len() implies (#[trigger] later[i]).1.len()
            <= MAX_PACKET by {
            assert(later[i] == pkts[i + 1]);
        }
        law_stream_round_trip(later, rest);
        law_frame_round_trip(head, body, tail);
        assert(stream(pkts) + rest =~= framed(head, body) + tail);
        assert((stream(pkts) + rest).skip(framed(head, body).len() as int) =~= tail);
        assert(pkts.map_values(read) =~= seq![read(pkts[0])] + later.map_values(read));
    }
}

proof fn lemma_rem_at_extend(s: Seq<u8>, more: Seq<u8>, max: nat)
    ensures
        rem_at(s, max) is Some ==> rem_at(s + more, max) == rem_at(s, max),
    decreases max,
{
    if s.len() > 0 && max > 0 {
        lemma_rem_at_extend(s.skip(1), more, (max - 1) as nat);
        assert((s + more).skip(1) =~= s.skip(1) + more);
    }
}

proof fn lemma_next_extend(s: Seq<u8>, more: Seq<u8>)
    ensures
        next_packet(s) !is NeedMore ==> next_packet(s + more) == next_packet(s),
        next_packet(s) matches Next::Packet(p, used) ==> 0 < used <= s.len(),
{
    if s.len() > 0 {
        lemma_overlong(s.skip(1));
        lemma_overlong((s + more).skip(1));
        lemma_rem_at_extend(s.skip(1), more, 4);
        lemma_rem_at_range(s.skip(1), 4);
        assert((s + more).skip(1) =~= s.skip(1) + more);
        match rem_at(s.skip(1), 4) {
            Some((rem, n)) => {
                if s.len() >= 1 + n + rem {
                    assert((s + more).subrange(1 + n as int, 1 + n + rem as int) =~= s.subrange(
                        1 + n as int,
                        1 + n + rem as int,
                    ));
                }
            },
            None => {},
        }
    }
}

/// It does not matter in what pieces a stream arrives: the packets read from a
/// first piece, and then from what it left over followed by the next piece,
/// are those read from both pieces at once.
pub proof fn law_pieces(a: Seq<u8>, b: Seq<u8>)
    ensures
        packets_of(a) matches Ok((first, used)) ==> used <= a.len() && packets_of(a + b) == (
        match packets_of(a.skip(used as int) + b) {
            Ok((then_read, more)) => Ok::<(Seq<(u8, u8, Seq<u8>)>, nat), FrameError>(
                (first + then_read, used + more),
            ),
            Err(e) => Err(e),
        }),
        packets_of(a) matches Err(e) ==> packets_of(a + b) == Err::<
            (Seq<(u8, u8, Seq<u8>)>, nat),
            FrameError,
        >(e),
    decreases a.len(),
{
    lemma_next_extend(a, b);
    match next_packet(a) {
        Next::NeedMore => {
            assert(a.skip(0) =~= a);
            match packets_of(a + b) {
                Ok((p, n)) => {
                    assert(Seq::<(u8, u8, Seq<u8>)>::empty() + p =~= p);
                },
                Err(_) => {},
            }
        },
        Next::TooLarge(_) => {},
        Next::BadLength => {},
        Next::Packet(pkt, n) => {
            let rest = a.skip(n as int);
            law_pieces(rest, b);
            assert((a + b).skip(n as int) =~= rest + b);
            match packets_of(rest) {
                Ok((p, used)) => {
                    assert(a.skip((n + used) as int) =~= rest.skip(used as int));
                    match packets_of(rest.skip(used as int) + b) {
                        Ok((q, more)) => {
                            assert(seq![pkt] + (p + q) =~= (seq![pkt] + p) + q);
                        },
                        Err(_) => {},
                    }
                },
                Err(_) => {},
            }
        },
    }
}

proof fn lemma_be16(v: u16, s: Seq<u8>, pos: int)
    requires
        0 <= pos,
        pos + 2 <= s.len(),
        s[pos] == be16(v)[0],
        s[pos + 1] == be16(v)[1],
    ensures
        be16_at(s, pos) == v,
{
}

proof fn lemma_field(s: Seq<u8>, pos: int, field: Seq<u8>)
    requires
        0 <= pos,
        field.len() < 65536,
        pos + 2 + field.len() <= s.len(),
        s.subrange(pos, pos + 2 + field.len()) == prefixed(field),
    ensures
        field_at(s, pos) == Some((field, pos + 2 + field.len())),
{
    let sub = s.subrange(pos, pos + 2 + field.len());
    assert(sub[0] == s[pos]);
    assert(sub[1] == s[pos + 1]);
    lemma_be16(field.len() as u16, s, pos);
    assert(s.subrange(pos + 2, pos + 2 + field.len()) =~= field) by {
        assert forall|i: int| 0 <= i < field.len() implies s.subrange(
            pos + 2,
            pos + 2 + field.len(),
        )[i] == field[i] by {
            assert(sub[i + 2] == s[pos + 2 + i]);
        }
    }
}

/// A PUBLISH is read back as it was written. Its QoS has two bits, its topic a
/// length of 16 bits, and its body at least three bytes.
pub proof fn law_publish_round_trip(
    topic: Seq<u8>,
    payload: Seq<u8>,
    qos: u8,
    pid: Option<u16>,
    dup: bool,
    retain: bool,
)
    requires
        topic.len() < 65536,
        qos < 4,
        qos > 0 <==> pid is Some,
        publish_body(topic, pid, payload).len() >= 3,
    ensures
        publish_head(qos, dup, retain) >> 4u8 == PUBLISH,
        publish_fields(
            publish_head(qos, dup, retain) & 0x0f,
            publish_body(topic, pid, payload),
        ) == Some((topic, qos, pid, payload, retain)),
{
    let head = publish_head(qos, dup, retain);
    lemma_publish_head(qos, dup, retain);
    let body = publish_body(topic, pid, payload);
    assert(body.subrange(0, 2 + topic.len() as int) =~= prefixed(topic));
    lemma_field(body, 0, topic);
    let pos = 2 + topic.len() as int;
    match pid {
        Some(p) => {
            lemma_be16(p, body, pos);
            assert(body.skip(pos + 2) =~= payload);
        },
        None => {
            assert(body.skip(pos) =~= payload);
        },
    }
}

proof fn lemma_publish_head(qos: u8, dup: bool, retain: bool)
    requires
        qos < 4,
    ensures
        ({
            let head = publish_head(qos, dup, retain);
            &&& head >> 4u8 == 3
            &&& ((head & 0x0f) >> 1u8) & 0x03 == qos
            &&& ((head & 0x0f) & 0x01 != 0) == retain
        }),
{
    let d: u8 = if dup {
        0x08
    } else {
        0
    };
    let r: u8 = if retain {
        0x01
    } else {
        0
    };
    let head = publish_head(qos, dup, retain);
    assert(head == 0x30 | (qos << 1u8) | d | r);
    assert(head >> 4u8 == 3 && ((head & 0x0f) >> 1u8) & 0x03 == qos && ((head & 0x0f) & 0x01 != 0)
        == (r == 1)) by (bit_vector)
        requires
            head == 0x30 | (qos << 1u8) | d | r,
            qos < 4,
            d == 0 || d == 0x08,
            r == 0 || r == 0x01,
    ;
}

/// A PUBLISH in a queue still tells its topic, payload and QoS, whatever the
/// size of its header.
pub proof fn law_message_in_packet(
    topic: Seq<char>,
    payload: Seq<u8>,
    qos: u8,
    pid: Option<u16>,
    dup: bool,
    retain: bool,
)
    requires
        encode_utf8(topic).len() < 65536,
        qos < 4,
        qos > 0 <==> pid is Some,
        3 <= publish_body(encode_utf8(topic), pid, payload).len() < 268435456,
    ensures
        message_in(publish_packet(encode_utf8(topic), payload, qos, pid, dup, retain)) == Some(
            (topic, payload, qos),
        ),
{
    let raw = encode_utf8(topic);
    let head = publish_head(qos, dup, retain);
    let body = publish_body(raw, pid, payload);
    law_publish_round_trip(raw, payload, qos, pid, dup, retain);
    law_text_round_trip(topic);
    lemma_message_in_frame(head, body, topic, payload, qos, pid, retain);
}

proof fn lemma_message_in_frame(
    head: u8,
    body: Seq<u8>,
    topic: Seq<char>,
    payload: Seq<u8>,
    qos: u8,
    pid: Option<u16>,
    retain: bool,
)
    requires
        head >> 4u8 == PUBLISH,
        body.len() < 268435456,
        publish_of(head & 0x0f, body) == Some((topic, qos, pid, payload, retain)),
    ensures
        message_in(framed(head, body)) == Some((topic, payload, qos)),
{
    let pkt = framed(head, body);
    let rem = rem_bytes(body.len());
    assert(body.len() < rem_range(4)) by {
        reveal_with_fuel(rem_range, 5);
    }
    law_rem_round_trip(body.len(), 4, body);
    assert(pkt.skip(1) =~= rem + body);
    assert(pkt.skip(1 + rem.len() as int) =~= body);
    assert(pkt[0] == head);
}

/// A CONNECT without a will is read back as it was written.
pub proof fn law_connect_round_trip(cid: Seq<char>, clean: bool, keepalive: u16)
    requires
        encode_utf8(cid).len() < 65536,
    ensures
        connect_of(connect_body(clean_flag(clean), keepalive, encode_utf8(cid), Seq::empty()))
            == Some((cid, keepalive, false, 0u8, false, Seq::<char>::empty(), Seq::<u8>::empty(), clean)),
{
    let raw = encode_utf8(cid);
    let flags = clean_flag(clean);
    let body = connect_body(flags, keepalive, raw, Seq::empty());
    lemma_connect_head(flags, keepalive, raw, Seq::empty());
    law_text_round_trip(cid);
    assert((flags >> 1u8) & 0x01 == (if clean {
        1u8
    } else {
        0u8
    }) && (flags >> 2u8) & 0x01 != 1) by (bit_vector)
        requires
            flags == (if clean {
                0x02u8
            } else {
                0x00u8
            }),
    ;
}

proof fn lemma_connect_head(flags: u8, keepalive: u16, cid: Seq<u8>, tail: Seq<u8>)
    requires
        cid.len() < 65536,
    ensures
        ({
            let body = connect_body(flags, keepalive, cid, tail);
            &&& body.len() == 12 + cid.len() + tail.len()
            &&& be16_at(body, 0) == 4
            &&& body[7] == flags
            &&& be16_at(body, 8) == keepalive
            &&& field_at(body, 10) == Some((cid, 12 + cid.len() as int))
            &&& body.skip(12 + cid.len() as int) == tail
        }),
{
    let body = connect_body(flags, keepalive, cid, tail);
    lemma_be16(4, body, 0);
    lemma_be16(keepalive, body, 8);
    assert(body.subrange(10, 12 + cid.len() as int) =~= prefixed(cid));
    lemma_field(body, 10, cid);
    assert(body.skip(12 + cid.len() as int) =~= tail);
}

/// A CONNECT with a will is read back as it was written.
pub proof fn law_connect_will_round_trip(
    cid: Seq<char>,
    clean: bool,
    keepalive: u16,
    topic: Seq<char>,
    msg: Seq<u8>,
    retain: bool,
    qos: u8,
)
    requires
        encode_utf8(cid).len() < 65536,
        encode_utf8(topic).len() < 65536,
        msg.len() < 65536,
        qos < 4,
    ensures
        connect_of(
            connect_body(
                will_flags(clean, retain, qos),
                keepalive,
                encode_utf8(cid),
                prefixed(encode_utf8(topic)) + prefixed(msg),
            ),
        ) == Some((cid, keepalive, true, qos, retain, topic, msg, clean)),
{
    let raw = encode_utf8(cid);
    let rt = encode_utf8(topic);
    let flags = will_flags(clean, retain, qos);
    let tail = prefixed(rt) + prefixed(msg);
    let body = connect_body(flags, keepalive, raw, tail);
    lemma_connect_head(flags, keepalive, raw, tail);
    law_text_round_trip(cid);
    law_text_round_trip(topic);
    let p1 = 12 + raw.len() as int;
    let p2 = p1 + 2 + rt.len();
    assert(body.subrange(p1, p2) =~= prefixed(rt)) by {
        assert(body.skip(p1).subrange(0, 2 + rt.len() as int) =~= prefixed(rt));
        assert(body.subrange(p1, p2) =~= body.skip(p1).subrange(0, 2 + rt.len() as int));
    }
    lemma_field(body, p1, rt);
    assert(body.subrange(p2, p2 + 2 + msg.len()) =~= prefixed(msg)) by {
        assert(tail.skip(2 + rt.len() as int) =~= prefixed(msg));
        assert(body.subrange(p2, p2 + 2 + msg.len()) =~= body.skip(p1).skip(2 + rt.len() as int));
    }
    lemma_field(body, p2, msg);
    let c: u8 = if clean {
        0x02
    } else {
        0
    };
    let r: u8 = if retain {
        0x20
    } else {
        0
    };
    assert((flags >> 1u8) & 0x01 == (c >> 1u8) && (flags >> 2u8) & 0x01 == 1 && (flags >> 3u8)
        & 0x03 == qos && (flags >> 5u8) & 0x01 == (r >> 5u8) && (c >> 1u8 == 1) == (c == 2) && (r
        >> 5u8 == 1) == (r == 0x20)) by (bit_vector)
        requires
            flags == c | 0x04 | ((qos & 0x03) << 3u8) | r,
            qos < 4,
            c == 0 || c == 0x02,
            r == 0 || r == 0x20,
    ;
}

/// What a list of filters and QoS bytes becomes when it is read: only the low
/// two bits of each QoS count.
pub open spec fn asked_for(topics: Seq<(Seq<char>, u8)>) -> Seq<(Seq<char>, u8)> {
    topics.map_values(|e: (Seq<char>, u8)| (e.0, e.1 & 0x03))
}

proof fn lemma_subscribe_fields(pre: Seq<u8>, topics: Seq<(Seq<char>, u8)>)
    requires
        forall|i: int| 0 <= i < topics.len() ==> encode_utf8((#[trigger] topics[i]).0).len() < 65536,
    ensures
        subscribe_fields(pre + subscribe_list(topics), pre.len() as int) matches Some(raw)
            && decoded_filters(raw) == asked_for(topics),
    decreases topics.len(),
{
    let body = pre + subscribe_list(topics);
    let pos = pre.len() as int;
    if topics.len() == 0 {
        assert(decoded_filters(Seq::empty()) =~= asked_for(topics));
    } else {
        let (filter, qos) = topics[0];
        let raw = encode_utf8(filter);
        let rest = topics.skip(1);
        let first = prefixed(raw) + seq![qos];
        let end = pos + 2 + raw.len();
        assert(body =~= (pre + first) + subscribe_list(rest));
        assert(body.subrange(pos, end) =~= prefixed(raw));
        lemma_field(body, pos, raw);
        assert(body[end] == qos);
        law_text_round_trip(filter);
        assert forall|i: int| 0 <= i < rest.len() implies encode_utf8((#[trigger] rest[i]).0).len()
            < 65536 by {
            assert(rest[i] == topics[i + 1]);
        }
        lemma_subscribe_fields(pre + first, rest);
        match subscribe_fields(body, end + 1) {
            Some(more) => {
                assert(decoded_filters(seq![(raw, qos & 0x03)] + more) =~= seq![
                    (filter, qos & 0x03),
                ] + decoded_filters(more));
                assert(asked_for(topics) =~= seq![(filter, qos & 0x03)] + asked_for(rest));
            },
            None => {},
        }
    }
}

/// A SUBSCRIBE to any number of filters, at least one, is read back as it was
/// written, with the low two bits of each QoS.
pub proof fn law_subscribe_round_trip(pid: u16, topics: Seq<(Seq<char>, u8)>)
    requires
        topics.len() > 0,
        forall|i: int| 0 <= i < topics.len() ==> encode_utf8((#[trigger] topics[i]).0).len() < 65536,
    ensures
        subscribe_of(be16(pid) + subscribe_list(topics)) == Some((pid, asked_for(topics))),
{
    let body = be16(pid) + subscribe_list(topics);
    lemma_be16(pid, body, 0);
    lemma_subscribe_fields(be16(pid), topics);
}

proof fn lemma_unsubscribe_fields(pre: Seq<u8>, filters: Seq<Seq<char>>)
    requires
        forall|i: int| 0 <= i < filters.len() ==> encode_utf8(#[trigger] filters[i]).len() < 65536,
    ensures
        unsubscribe_fields(pre + unsubscribe_list(filters), pre.len() as int) matches Some(raw)
            && decoded(raw) == filters,
    decreases filters.len(),
{
    let body = pre + unsubscribe_list(filters);
    let pos = pre.len() as int;
    if filters.len() == 0 {
        assert(decoded(Seq::empty()) =~= filters);
    } else {
        let filter = filters[0];
        let raw = encode_utf8(filter);
        let rest = filters.skip(1);
        let first = prefixed(raw);
        let end = pos + 2 + raw.len();
        assert(body =~= (pre + first) + unsubscribe_list(rest));
        assert(body.subrange(pos, end) =~= prefixed(raw));
        lemma_field(body, pos, raw);
        law_text_round_trip(filter);
        assert forall|i: int| 0 <= i < rest.len() implies encode_utf8(#[trigger] rest[i]).len()
            < 65536 by {
            assert(rest[i] == filters[i + 1]);
        }
        lemma_unsubscribe_fields(pre + first, rest);
        match unsubscribe_fields(body, end) {
            Some(more) => {
                assert(decoded(seq![raw] + more) =~= seq![filter] + decoded(more));
                assert(filters =~= seq![filter] + rest);
            },
            None => {},
        }
    }
}

/// An UNSUBSCRIBE from any number of filters, at least one, is read back as it
/// was written.
pub proof fn law_unsubscribe_round_trip(pid: u16, filters: Seq<Seq<char>>)
    requires
        filters.len() > 0,
        forall|i: int| 0 <= i < filters.len() ==> encode_utf8(#[trigger] filters[i]).len() < 65536,
    ensures
        unsubscribe_of(be16(pid) + unsubscribe_list(filters)) == Some((pid, filters)),
{
    let body = be16(pid) + unsubscribe_list(filters);
    lemma_be16(pid, body, 0);
    lemma_unsubscribe_fields(be16(pid), filters);
}

} // verus!
