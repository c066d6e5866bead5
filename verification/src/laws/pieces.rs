//! Laws of reading: it does not matter in how many pieces the bytes of a
//! connection arrive.
use crate::frame::{packets_of, FrameError};
use crate::laws::bounds::{law_read_buffer_bounded, lemma_packets_same_input, same_input};
use crate::laws::delivery::lemma_count_twice;
use crate::laws::wire::law_pieces;
use crate::model;
use crate::model::{
    Accept, BrokerModel, ClientModel, Delivery, InFlightModel, PacketError, READ_CAP,
};
use crate::packet::{connect_of, publish_of, subscribe_of};
use crate::topic::filter_matches;
use vstd::prelude::*;

verus! {

// ---- states that differ in times and unparsed bytes ----

/// The two clients hold the same but for the times they note: when they are
/// next to be heard of, and when their unacknowledged messages were sent.
pub open spec fn same_client_but_times(c: ClientModel, d: ClientModel) -> bool {
    c.read_buf == d.read_buf && alike_client(c, d)
}

/// The two clients hold the same but for the times they note and their unparsed
/// bytes.
pub open spec fn alike_client(c: ClientModel, d: ClientModel) -> bool {
    &&& d == ClientModel {
        read_buf: d.read_buf,
        keepalive_deadline: d.keepalive_deadline,
        in_flight: d.in_flight,
        ..c
    }
    &&& c.in_flight.dom() == d.in_flight.dom()
    &&& forall|pid: u16|
        #![trigger d.in_flight[pid]]
        c.in_flight.contains_key(pid) ==> d.in_flight[pid] == (InFlightModel {
            sent_at: d.in_flight[pid].sent_at,
            ..c.in_flight[pid]
        })
}

/// The two states are the same but for the times that their clients note.
pub open spec fn same_but_times(m: BrokerModel, n: BrokerModel) -> bool {
    &&& n == BrokerModel { clients: n.clients, ..m }
    &&& m.clients.dom() == n.clients.dom()
    &&& forall|t: usize|
        #![trigger n.clients[t]]
        m.clients.contains_key(t) ==> same_client_but_times(m.clients[t], n.clients[t])
}

/// The two states are the same but for the times that their clients note, the
/// unparsed bytes and the number of packets received.
pub open spec fn alike(m: BrokerModel, n: BrokerModel) -> bool {
    &&& n == BrokerModel {
        clients: n.clients,
        sys_msgs_received: n.sys_msgs_received,
        ..m
    }
    &&& m.clients.dom() == n.clients.dom()
    &&& forall|t: usize|
        #![trigger n.clients[t]]
        m.clients.contains_key(t) ==> alike_client(m.clients[t], n.clients[t])
}

proof fn lemma_put_alike(
    m: BrokerModel,
    n: BrokerModel,
    token: usize,
    c: ClientModel,
    d: ClientModel,
)
    requires
        alike(m, n),
        alike_client(c, d),
    ensures
        alike(model::put_client(m, token, c), model::put_client(n, token, d)),
{
    let m2 = model::put_client(m, token, c);
    let n2 = model::put_client(n, token, d);
    assert(m2.clients.dom() =~= n2.clients.dom());
    assert forall|t: usize|
        #![trigger n2.clients[t]]
        m2.clients.contains_key(t) implies alike_client(m2.clients[t], n2.clients[t]) by {
        if t != token {
            assert(n2.clients[t] == n.clients[t]);
        }
    }
}

proof fn lemma_accept_alike(
    c: ClientModel,
    d: ClientModel,
    topic: Seq<char>,
    payload: Seq<u8>,
    qos: u8,
    retain: bool,
    now: u64,
    later: u64,
)
    requires
        alike_client(c, d),
    ensures
        ({
            let a = model::accept(c, topic, payload, qos, retain, now);
            let b = model::accept(d, topic, payload, qos, retain, later);
            match a {
                Accept::Queued(c2) => b is Queued && alike_client(c2, b->Queued_0),
                Accept::Full => b is Full,
                Accept::TooSlow => b is TooSlow,
            }
        }),
{
    let a = model::accept(c, topic, payload, qos, retain, now);
    let b = model::accept(d, topic, payload, qos, retain, later);
    if a is Queued && qos != 0 {
        assert(a->Queued_0.in_flight.dom() =~= b->Queued_0.in_flight.dom());
    }
}

proof fn lemma_deliver_alike(
    m: BrokerModel,
    n: BrokerModel,
    token: usize,
    topic: Seq<char>,
    payload: Seq<u8>,
    qos: u8,
    retain: bool,
    now: u64,
    later: u64,
)
    requires
        alike(m, n),
    ensures
        ({
            let (m2, d) = model::deliver(m, token, topic, payload, qos, retain, now);
            let (n2, e) = model::deliver(n, token, topic, payload, qos, retain, later);
            d == e && alike(m2, n2)
        }),
{
    if m.clients.contains_key(token) {
        let c = m.clients[token];
        let d = n.clients[token];
        assert(alike_client(c, d));
        lemma_accept_alike(c, d, topic, payload, qos, retain, now, later);
        let m2 = model::deliver(m, token, topic, payload, qos, retain, now).0;
        let n2 = model::deliver(n, token, topic, payload, qos, retain, later).0;
        match model::accept(c, topic, payload, qos, retain, now) {
            Accept::Queued(c2) => {
                let d2 = model::accept(d, topic, payload, qos, retain, later)->Queued_0;
                lemma_put_alike(m, n, token, c2, d2);
                assert(m2.clients == model::put_client(m, token, c2).clients);
                assert(n2.clients == model::put_client(n, token, d2).clients);
            },
            Accept::Full => {},
            Accept::TooSlow => {
                assert(m2.clients.dom() =~= n2.clients.dom());
                assert forall|t: usize|
                    #![trigger n2.clients[t]]
                    m2.clients.contains_key(t) implies alike_client(
                    m2.clients[t],
                    n2.clients[t],
                ) by {
                    assert(n2.clients[t] == n.clients[t]);
                }
            },
        }
    }
}

proof fn lemma_fan_out_alike(
    m: BrokerModel,
    n: BrokerModel,
    i: int,
    topic: Seq<char>,
    payload: Seq<u8>,
    qos: u8,
    now: u64,
    later: u64,
)
    requires
        alike(m, n),
    ensures
        ({
            let a = model::fan_out(m, i, topic, payload, qos, now);
            let b = model::fan_out(n, i, topic, payload, qos, later);
            alike(a.0, b.0) && a.1 == b.1 && a.2 == b.2 && a.3 == b.3
        }),
    decreases m.subs.len() - i,
{
    if i < 0 || i >= m.subs.len() {
    } else if !filter_matches(m.subs[i].filter, topic) {
        lemma_fan_out_alike(m, n, i + 1, topic, payload, qos, now, later);
    } else {
        let sub = m.subs[i];
        let fwd = model::min_qos(qos, sub.qos);
        lemma_deliver_alike(m, n, sub.token, topic, payload, fwd, false, now, later);
        let (m2, d) = model::deliver(m, sub.token, topic, payload, fwd, false, now);
        let (n2, _) = model::deliver(n, sub.token, topic, payload, fwd, false, later);
        match d {
            Delivery::Gone => {
                let m3 = BrokerModel { subs: model::swap_out(m2.subs, i), ..m2 };
                let n3 = BrokerModel { subs: model::swap_out(n2.subs, i), ..n2 };
                lemma_fan_out_alike(m3, n3, i, topic, payload, qos, now, later);
            },
            _ => {
                lemma_fan_out_alike(m2, n2, i + 1, topic, payload, qos, now, later);
            },
        }
    }
}

proof fn lemma_publish_received_alike(
    m: BrokerModel,
    n: BrokerModel,
    topic: Seq<char>,
    payload: Seq<u8>,
    qos: u8,
    retain: bool,
    now: u64,
    later: u64,
)
    requires
        alike(m, n),
    ensures
        alike(
            model::publish_received(m, topic, payload, qos, retain, now),
            model::publish_received(n, topic, payload, qos, retain, later),
        ),
{
    let m1 = if retain {
        BrokerModel { retained: model::retain_message(m.retained, topic, payload, qos), ..m }
    } else {
        m
    };
    let n1 = if retain {
        BrokerModel { retained: model::retain_message(n.retained, topic, payload, qos), ..n }
    } else {
        n
    };
    lemma_fan_out_alike(m1, n1, 0, topic, payload, qos, now, later);
}

proof fn lemma_flush_alike(
    m: BrokerModel,
    n: BrokerModel,
    token: usize,
    subs: Seq<(Seq<char>, u8)>,
    queued: Seq<(Seq<char>, Seq<u8>, u8)>,
    now: u64,
    later: u64,
)
    requires
        alike(m, n),
    ensures
        ({
            let a = model::flush_offline(m, token, subs, queued, now);
            let b = model::flush_offline(n, token, subs, queued, later);
            alike(a.0, b.0) && a.1 == b.1
        }),
    decreases queued.len(),
{
    if queued.len() > 0 {
        let (topic, payload, q) = queued[0];
        let qos = match model::first_match(subs, topic) {
            Some(s) => model::min_qos(q, s),
            None => q,
        };
        lemma_deliver_alike(m, n, token, topic, payload, qos, false, now, later);
        let m2 = model::deliver(m, token, topic, payload, qos, false, now).0;
        let n2 = model::deliver(n, token, topic, payload, qos, false, later).0;
        lemma_flush_alike(m2, n2, token, subs, queued.skip(1), now, later);
    }
}

proof fn lemma_retained_alike(
    m: BrokerModel,
    n: BrokerModel,
    token: usize,
    filter: Seq<char>,
    qos: u8,
    stored: Seq<(Seq<char>, Seq<u8>, u8)>,
    now: u64,
    later: u64,
)
    requires
        alike(m, n),
    ensures
        ({
            let a = model::deliver_retained(m, token, filter, qos, stored, now);
            let b = model::deliver_retained(n, token, filter, qos, stored, later);
            alike(a.0, b.0) && a.1 == b.1
        }),
    decreases stored.len(),
{
    if stored.len() == 0 {
    } else if !filter_matches(filter, stored[0].0) {
        lemma_retained_alike(m, n, token, filter, qos, stored.skip(1), now, later);
    } else {
        let s = stored[0];
        let q = model::min_qos(s.2, qos);
        lemma_deliver_alike(m, n, token, s.0, s.1, q, true, now, later);
        let m2 = model::deliver(m, token, s.0, s.1, q, true, now).0;
        let n2 = model::deliver(n, token, s.0, s.1, q, true, later).0;
        lemma_retained_alike(m2, n2, token, filter, qos, stored.skip(1), now, later);
    }
}

proof fn lemma_subscribe_alike(
    m: BrokerModel,
    n: BrokerModel,
    token: usize,
    topics: Seq<(Seq<char>, u8)>,
    now: u64,
    later: u64,
)
    requires
        alike(m, n),
    ensures
        ({
            let a = model::subscribe_all(m, token, topics, now);
            let b = model::subscribe_all(n, token, topics, later);
            alike(a.0, b.0) && a.1 == b.1
        }),
    decreases topics.len(),
{
    if topics.len() > 0 {
        let (filter, qos) = topics[0];
        let sub = model::SubModel { filter, token, qos };
        let m1 = BrokerModel { subs: m.subs.push(sub), ..m };
        let n1 = BrokerModel { subs: n.subs.push(sub), ..n };
        lemma_retained_alike(m1, n1, token, filter, qos, m1.retained, now, later);
        let m2 = model::deliver_retained(m1, token, filter, qos, m1.retained, now).0;
        let n2 = model::deliver_retained(n1, token, filter, qos, n1.retained, later).0;
        lemma_subscribe_alike(m2, n2, token, topics.skip(1), now, later);
    }
}

proof fn lemma_connect_alike(
    m: BrokerModel,
    n: BrokerModel,
    token: usize,
    f: (Seq<char>, u16, bool, u8, bool, Seq<char>, Seq<u8>, bool),
    now: u64,
    later: u64,
)
    requires
        alike(m, n),
    ensures
        ({
            let a = model::on_connect(m, token, f, now);
            let b = model::on_connect(n, token, f, later);
            alike(a.0, b.0) && a.1 == b.1
        }),
{
    if m.clients.contains_key(token) {
        let c = model::connected_client(m.clients[token], f, now);
        let d = model::connected_client(n.clients[token], f, later);
        assert(alike_client(m.clients[token], n.clients[token]));
        assert(alike_client(c, d));
        lemma_put_alike(m, n, token, c, d);
        if !f.7 {
            match model::session_of(m.sessions, f.0) {
                None => {},
                Some(s) => {
                    let m1 = BrokerModel {
                        subs: m.subs + model::restored(s.subs, token),
                        ..model::put_client(m, token, c)
                    };
                    let n1 = BrokerModel {
                        subs: n.subs + model::restored(s.subs, token),
                        ..model::put_client(n, token, d)
                    };
                    lemma_flush_alike(m1, n1, token, s.subs, s.offline, now, later);
                },
            }
        }
    }
}

proof fn lemma_publish_alike(
    m: BrokerModel,
    n: BrokerModel,
    token: usize,
    f: (Seq<char>, u8, Option<u16>, Seq<u8>, bool),
    now: u64,
    later: u64,
)
    requires
        alike(m, n),
    ensures
        ({
            let a = model::on_publish(m, token, f, now);
            let b = model::on_publish(n, token, f, later);
            alike(a.0, b.0) && a.1 == b.1
        }),
{
    let (topic, qos, pid, payload, retain) = f;
    match pid {
        Some(p) if qos == 1 || qos == 2 => {
            if m.clients.contains_key(token) {
                let m1 = first_step(m, token, qos, p);
                let n1 = first_step(n, token, qos, p);
                lemma_first_step_alike(m, n, token, qos, p);
                lemma_publish_received_alike(m1, n1, topic, payload, qos, retain, now, later);
            }
        },
        _ => {
            lemma_publish_received_alike(m, n, topic, payload, qos, retain, now, later);
        },
    }
}

/// The state after a PUBLISH with a packet id was answered, before it is passed
/// on.
spec fn first_step(m: BrokerModel, token: usize, qos: u8, p: u16) -> BrokerModel {
    if qos == 1 {
        model::reply(m, token, crate::packet::id_packet(0x40, p))
    } else {
        let c = m.clients[token];
        let c1 = ClientModel { received_qos2: c.received_qos2.insert(p), ..c };
        model::put_client(m, token, model::with_qos0(c1, crate::packet::id_packet(0x50, p)))
    }
}

proof fn lemma_first_step_alike(m: BrokerModel, n: BrokerModel, token: usize, qos: u8, p: u16)
    requires
        alike(m, n),
        m.clients.contains_key(token),
    ensures
        alike(first_step(m, token, qos, p), first_step(n, token, qos, p)),
        m.clients[token].received_qos2 == n.clients[token].received_qos2,
{
    let c = m.clients[token];
    let d = n.clients[token];
    assert(alike_client(c, d));
    lemma_put_alike(
        m,
        n,
        token,
        first_step(m, token, qos, p).clients[token],
        first_step(n, token, qos, p).clients[token],
    );
}

/// Packets other than CONNECT, SUBSCRIBE and PUBLISH touch one client, in a way
/// that rests on neither times nor unparsed bytes.
proof fn lemma_content_alike(
    m: BrokerModel,
    n: BrokerModel,
    token: usize,
    pkt: (u8, u8, Seq<u8>),
    now: u64,
    later: u64,
)
    requires
        alike(m, n),
    ensures
        ({
            let a = model::on_content(m, token, pkt, now);
            let b = model::on_content(n, token, pkt, later);
            alike(a.0, b.0) && a.1 == b.1
        }),
{
    let (ptype, flags, body) = pkt;
    let a = model::on_content(m, token, pkt, now);
    let b = model::on_content(n, token, pkt, later);
    if ptype == crate::packet::CONNECT {
        if connect_of(body) is Some {
            lemma_connect_alike(m, n, token, connect_of(body)->0, now, later);
        }
    } else if ptype == crate::packet::SUBSCRIBE {
        if let Some((pid, topics)) = subscribe_of(body) {
            lemma_subscribe_alike(m, n, token, topics, now, later);
            let m2 = model::subscribe_all(m, token, topics, now).0;
            let n2 = model::subscribe_all(n, token, topics, later).0;
            if m2.clients.contains_key(token) {
                assert(alike_client(m2.clients[token], n2.clients[token]));
                let pkt = crate::packet::framed(
                    0x90,
                    crate::bytes::be16(pid) + model::grants(topics),
                );
                lemma_put_alike(
                    m2,
                    n2,
                    token,
                    model::with_qos0(m2.clients[token], pkt),
                    model::with_qos0(n2.clients[token], pkt),
                );
            }
        }
    } else if ptype == crate::packet::PUBLISH {
        if publish_of(flags, body) is Some {
            lemma_publish_alike(m, n, token, publish_of(flags, body)->0, now, later);
        }
    } else if m.clients.contains_key(token) {
        let c = m.clients[token];
        let d = n.clients[token];
        assert(alike_client(c, d));
        let c2 = a.0.clients[token];
        let d2 = b.0.clients[token];
        assert(c2.in_flight.dom() =~= d2.in_flight.dom());
        assert(alike_client(c2, d2));
        lemma_put_alike(m, n, token, c2, d2);
        assert(a.0.clients =~= m.clients.insert(token, c2));
        assert(b.0.clients =~= n.clients.insert(token, d2));
    }
}

proof fn lemma_packet_alike(
    m: BrokerModel,
    n: BrokerModel,
    token: usize,
    pkt: (u8, u8, Seq<u8>),
    now: u64,
    later: u64,
)
    requires
        alike(m, n),
    ensures
        ({
            let a = model::on_packet(m, token, pkt, now);
            let b = model::on_packet(n, token, pkt, later);
            alike(a.0, b.0) && a.1 == b.1
        }),
{
    let m1 = model::heard(m, token, now);
    let n1 = model::heard(n, token, later);
    if m.clients.contains_key(token) {
        assert(alike_client(m.clients[token], n.clients[token]));
        lemma_put_alike(m, n, token, m1.clients[token], n1.clients[token]);
    }
    lemma_content_alike(m1, n1, token, pkt, now, later);
}

proof fn lemma_packets_alike(
    m: BrokerModel,
    n: BrokerModel,
    token: usize,
    pkts: Seq<(u8, u8, Seq<u8>)>,
    now: u64,
    later: u64,
)
    requires
        alike(m, n),
    ensures
        ({
            let a = model::on_packets(m, token, pkts, now);
            let b = model::on_packets(n, token, pkts, later);
            alike(a.0, b.0) && a.1 == b.1
        }),
    decreases pkts.len(),
{
    if pkts.len() > 0 {
        lemma_packet_alike(m, n, token, pkts[0], now, later);
        let m2 = model::on_packet(m, token, pkts[0], now).0;
        let n2 = model::on_packet(n, token, pkts[0], later).0;
        lemma_packets_alike(m2, n2, token, pkts.skip(1), now, later);
    }
}

proof fn lemma_packets_joined(
    m: BrokerModel,
    token: usize,
    first: Seq<(u8, u8, Seq<u8>)>,
    second: Seq<(u8, u8, Seq<u8>)>,
    now: u64,
)
    ensures
        ({
            let (m1, r) = model::on_packets(m, token, first, now);
            r is Ok ==> model::on_packets(m, token, first + second, now) == model::on_packets(
                m1,
                token,
                second,
                now,
            )
        }),
    decreases first.len(),
{
    if first.len() == 0 {
        assert(first + second =~= second);
    } else {
        let m1 = model::on_packet(m, token, first[0], now).0;
        assert((first + second).skip(1) =~= first.skip(1) + second);
        lemma_packets_joined(m1, token, first.skip(1), second, now);
    }
}

// ---- the law ----

/// The broker with `buf` as the unparsed bytes of client `token`.
pub open spec fn with_input(m: BrokerModel, token: usize, buf: Seq<u8>) -> BrokerModel {
    model::put_client(m, token, ClientModel { read_buf: buf, ..m.clients[token] })
}

proof fn lemma_with_input_alike(m: BrokerModel, token: usize, a: Seq<u8>, b: Seq<u8>)
    requires
        m.clients.contains_key(token),
    ensures
        alike(with_input(m, token, a), with_input(m, token, b)),
        alike(m, with_input(m, token, a)),
{
    assert(alike(m, m));
    let c = m.clients[token];
    lemma_put_alike(
        m,
        m,
        token,
        ClientModel { read_buf: a, ..c },
        ClientModel { read_buf: b, ..c },
    );
    lemma_put_alike(m, m, token, c, ClientModel { read_buf: a, ..c });
    assert(m.clients.insert(token, c) =~= m.clients);
}

proof fn lemma_alike_chain(a: BrokerModel, b: BrokerModel, c: BrokerModel)
    requires
        alike(a, b),
        alike(a, c),
    ensures
        alike(b, c),
{
    assert forall|t: usize|
        #![trigger c.clients[t]]
        b.clients.contains_key(t) implies alike_client(b.clients[t], c.clients[t]) by {
        let x = a.clients[t];
        let y = b.clients[t];
        let z = c.clients[t];
        assert(alike_client(x, y) && alike_client(x, z));
        assert forall|pid: u16|
            #![trigger z.in_flight[pid]]
            y.in_flight.contains_key(pid) implies z.in_flight[pid] == (InFlightModel {
            sent_at: z.in_flight[pid].sent_at,
            ..y.in_flight[pid]
        }) by {
            assert(y.in_flight[pid].pkt == x.in_flight[pid].pkt);
        }
    }
}

/// `m` after `n` more packets were received.
spec fn counted(m: BrokerModel, n: nat) -> BrokerModel {
    BrokerModel { sys_msgs_received: model::count(m.sys_msgs_received, n), ..m }
}

proof fn lemma_buffer(m: BrokerModel, token: usize, buf: Seq<u8>, now: u64)
    requires
        m.clients.contains_key(token),
    ensures
        packets_of(buf) matches Ok((pkts, used)) ==> ({
            let s = with_input(m, token, buf.skip(used as int));
            let (k, r) = model::on_packets(s, token, pkts, now);
            let (m2, r2) = model::on_buffer(with_input(m, token, buf), token, now);
            &&& r2 == r
            &&& r is Ok ==> m2 == counted(k, pkts.len())
            &&& same_input(s, k)
        }),
        packets_of(buf) is Err ==> model::on_buffer(with_input(m, token, buf), token, now) == (
            with_input(m, token, buf),
            refused(buf),
        ),
{
    if packets_of(buf) is Ok {
        let (pkts, used) = packets_of(buf)->Ok_0;
        let s = with_input(m, token, buf.skip(used as int));
        let whole = with_input(m, token, buf);
        let c = whole.clients[token];
        let s1 = model::put_client(
            whole,
            token,
            ClientModel { read_buf: c.read_buf.skip(used as int), ..c },
        );
        assert(s1.clients =~= s.clients);
        assert(s1 == s);
        lemma_packets_same_input(s, token, pkts, now);
        assert(model::on_packets(s, token, pkts, now).1 matches Ok(u) ==> u == ());
    }
}

/// The error for bytes that are refused for a packet's length.
spec fn refused(buf: Seq<u8>) -> Result<(), PacketError> {
    match packets_of(buf) {
        Err(FrameError::TooLarge(rem)) => Err(PacketError::TooLarge(rem)),
        Err(FrameError::BadLength) => Err(PacketError::BadLength),
        Ok(_) => Ok(()),
    }
}

proof fn lemma_handled_in_pieces(
    m: BrokerModel,
    token: usize,
    left: Seq<u8>,
    end: Seq<u8>,
    first: Seq<(u8, u8, Seq<u8>)>,
    second: Seq<(u8, u8, Seq<u8>)>,
    now: u64,
    later: u64,
    at_once: u64,
)
    requires
        m.clients.contains_key(token),
        model::on_packets(with_input(m, token, left), token, first, now).1 is Ok,
        model::on_packets(with_input(m, token, left), token, first, now).0.clients.contains_key(
            token,
        ),
    ensures
        ({
            let k1 = model::on_packets(with_input(m, token, left), token, first, now).0;
            let s2 = with_input(counted(k1, first.len()), token, end);
            let (k2, r2) = model::on_packets(s2, token, second, later);
            let s3 = with_input(m, token, end);
            let (k3, r3) = model::on_packets(s3, token, first + second, at_once);
            &&& r3 == r2
            &&& alike(k2, k3)
        }),
{
    let s1 = with_input(m, token, left);
    let k1 = model::on_packets(s1, token, first, now).0;
    let m1 = counted(k1, first.len());
    let s2 = with_input(m1, token, end);
    let s3 = with_input(m, token, end);
    let j1 = model::on_packets(s3, token, first, at_once).0;
    lemma_packets_joined(s3, token, first, second, at_once);
    lemma_with_input_alike(m, token, left, end);
    lemma_packets_alike(s1, s3, token, first, now, at_once);
    lemma_with_input_alike(m1, token, end, end);
    assert(alike(m1, j1));
    lemma_alike_chain(m1, s2, j1);
    lemma_packets_alike(s2, j1, token, second, later, at_once);
}

proof fn lemma_same_after_pieces(
    m: BrokerModel,
    token: usize,
    left: Seq<u8>,
    end: Seq<u8>,
    first: Seq<(u8, u8, Seq<u8>)>,
    second: Seq<(u8, u8, Seq<u8>)>,
    now: u64,
    later: u64,
    at_once: u64,
)
    requires
        m.clients.contains_key(token),
        model::on_packets(with_input(m, token, left), token, first, now).1 is Ok,
        model::on_packets(with_input(m, token, left), token, first, now).0.clients.contains_key(
            token,
        ),
    ensures
        ({
            let k1 = model::on_packets(with_input(m, token, left), token, first, now).0;
            let s2 = with_input(counted(k1, first.len()), token, end);
            let (k2, r2) = model::on_packets(s2, token, second, later);
            let s3 = with_input(m, token, end);
            let (k3, r3) = model::on_packets(s3, token, first + second, at_once);
            &&& r3 == r2
            &&& same_but_times(
                counted(k2, second.len()),
                counted(k3, (first + second).len()),
            )
            &&& k3.clients.contains_key(token) ==> k3.clients[token].read_buf == end
        }),
{
    let s1 = with_input(m, token, left);
    let k1 = model::on_packets(s1, token, first, now).0;
    let s2 = with_input(counted(k1, first.len()), token, end);
    let k2 = model::on_packets(s2, token, second, later).0;
    let s3 = with_input(m, token, end);
    let k3 = model::on_packets(s3, token, first + second, at_once).0;
    lemma_handled_in_pieces(m, token, left, end, first, second, now, later, at_once);
    lemma_packets_same_input(s1, token, first, now);
    lemma_packets_same_input(s2, token, second, later);
    lemma_packets_same_input(s3, token, first + second, at_once);
    lemma_same_input_kept(s1, k1, s2, k2, s3, k3, token);
    lemma_count_twice(m.sys_msgs_received, first.len(), second.len());
}

proof fn lemma_same_input_kept(
    s1: BrokerModel,
    k1: BrokerModel,
    s2: BrokerModel,
    k2: BrokerModel,
    s3: BrokerModel,
    k3: BrokerModel,
    token: usize,
)
    requires
        same_input(s1, k1),
        same_input(s2, k2),
        same_input(s3, k3),
        alike(k2, k3),
        s2.clients[token].read_buf == s3.clients[token].read_buf,
        forall|t: usize|
            t != token ==> #[trigger] s2.clients.contains_key(t) == k1.clients.contains_key(t),
        forall|t: usize| t != token ==> #[trigger] s2.clients[t] == k1.clients[t],
        forall|t: usize| t != token ==> #[trigger] s3.clients[t] == s1.clients[t],
    ensures
        forall|t: usize|
            #![trigger k3.clients[t]]
            k2.clients.contains_key(t) ==> same_client_but_times(k2.clients[t], k3.clients[t]),
{
    assert forall|t: usize|
        #![trigger k3.clients[t]]
        k2.clients.contains_key(t) implies same_client_but_times(
        k2.clients[t],
        k3.clients[t],
    ) by {
        assert(alike_client(k2.clients[t], k3.clients[t]));
        assert(k3.clients.contains_key(t));
        assert(s2.clients.contains_key(t));
        if t != token {
            assert(k1.clients.contains_key(t));
            assert(s2.clients[t] == k1.clients[t]);
            assert(s3.clients[t] == s1.clients[t]);
        }
    }
}

proof fn lemma_used(buf: Seq<u8>)
    ensures
        packets_of(buf) matches Ok((_, used)) ==> used <= buf.len(),
{
    law_pieces(buf, Seq::empty());
}

/// However the bytes of a client arrive, the broker ends the same. If its read
/// buffer holds `a` and is handled, and what is left is handled again once `b`
/// has come behind it, then handling `a` followed by `b` at once, at whatever
/// time, gives the same outcome; where that is no error it also leaves the same
/// state, but for the times noted, and as unparsed bytes the incomplete packet
/// at the end.
#[verifier::rlimit(60)]
pub proof fn law_buffer_in_pieces(
    m: BrokerModel,
    token: usize,
    a: Seq<u8>,
    b: Seq<u8>,
    now: u64,
    later: u64,
    at_once: u64,
)
    requires
        m.clients.contains_key(token),
        model::on_buffer(with_input(m, token, a), token, now).1 is Ok,
        model::on_buffer(with_input(m, token, a), token, now).0.clients.contains_key(token),
    ensures
        ({
            let m1 = model::on_buffer(with_input(m, token, a), token, now).0;
            let rest = m1.clients[token].read_buf;
            let (m2, r2) = model::on_buffer(with_input(m1, token, rest + b), token, later);
            let (m3, r3) = model::on_buffer(with_input(m, token, a + b), token, at_once);
            &&& r3 == r2
            &&& r2 is Ok ==> same_but_times(m2, m3)
            &&& r2 is Ok && m3.clients.contains_key(token) ==> (packets_of(a + b) matches Ok(
                (_, used),
            ) && m3.clients[token].read_buf == (a + b).skip(used as int))
        }),
{
    law_pieces(a, b);
    lemma_buffer(m, token, a, now);
    let (first, used) = packets_of(a)->Ok_0;
    let left = a.skip(used as int);
    let k1 = model::on_packets(with_input(m, token, left), token, first, now).0;
    let m1 = counted(k1, first.len());
    assert(m1.clients[token].read_buf == left);
    lemma_buffer(m1, token, left + b, later);
    lemma_buffer(m, token, a + b, at_once);
    if packets_of(left + b) is Ok {
        let (second, more) = packets_of(left + b)->Ok_0;
        lemma_used(left + b);
        let end = (left + b).skip(more as int);
        assert((a + b).skip((used + more) as int) =~= end);
        lemma_same_after_pieces(m, token, left, end, first, second, now, later, at_once);
    }
}

/// Two reads do what one read of the same bytes does, as long as the bytes
/// together stay within the limit on unparsed bytes: the connection is kept or
/// closed alike, and where it is kept the states are the same but for the times
/// noted.
pub proof fn law_reads_in_pieces(
    m: BrokerModel,
    token: usize,
    a: Seq<u8>,
    b: Seq<u8>,
    now: u64,
    later: u64,
    at_once: u64,
)
    requires
        m.clients.contains_key(token),
        m.clients[token].read_buf.len() + a.len() + b.len() <= READ_CAP,
        model::on_bytes(m, token, a, now).1,
        model::on_bytes(m, token, a, now).0.clients.contains_key(token),
    ensures
        ({
            let m1 = model::on_bytes(m, token, a, now).0;
            let (m2, open2) = model::on_bytes(m1, token, b, later);
            let (m3, open3) = model::on_bytes(m, token, a + b, at_once);
            &&& open3 == open2
            &&& open2 ==> same_but_times(m2, m3)
        }),
{
    let buf = m.clients[token].read_buf;
    let m1 = model::on_bytes(m, token, a, now).0;
    law_buffer_in_pieces(m, token, buf + a, b, now, later, at_once);
    law_read_buffer_bounded(m, token, a, now, token);
    law_pieces(buf + a, b);
    assert((buf + a) + b =~= buf + (a + b));
}

} // verus!
