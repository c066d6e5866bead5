//! Laws of control packets: what each of them does, by its type.
use crate::laws::bounds::{distinct_ids, lemma_flush_bounded, lemma_position};
use crate::laws::delivery::has_room;
use crate::laws::format::law_id_packet_bytes;
use crate::laws::queue::{answered, law_answer_queued};
use crate::laws::store::{
    lemma_deliver_retained, lemma_only_client_trans, only_client, reliable, retained_copies,
    sent_all,
};
use crate::bytes::be16;
use crate::model;
use crate::model::{
    BrokerModel, ClientModel, DepartureModel, PacketError, SessionModel, SubModel,
};
use crate::packet::{connect_of, framed, publish_of, subscribe_of, unsubscribe_of};
use crate::topic::filter_matches;
use vstd::prelude::*;

verus! {

/// From `m` to `m2` client `token` may have changed, and nothing else did.
pub open spec fn only_this(m: BrokerModel, m2: BrokerModel, token: usize) -> bool {
    &&& m2.clients == m.clients.insert(token, m2.clients[token])
    &&& m2 == BrokerModel { clients: m2.clients, ..m }
}

// ---- every packet ----

/// Whoever sends a packet is heard of: its deadline moves to one and a half
/// times its keepalive from now, in nanoseconds, or away if it has none.
/// Nothing else changes.
pub proof fn law_heard(m: BrokerModel, token: usize, now: u64)
    requires
        now <= 18446645771709551615,
    ensures
        ({
            let m2 = model::heard(m, token, now);
            let (c, c2) = (m.clients[token], m2.clients[token]);
            &&& !m.clients.contains_key(token) ==> m2 == m
            &&& m.clients.contains_key(token) ==> {
                &&& only_this(m, m2, token)
                &&& c2 == (ClientModel { keepalive_deadline: c2.keepalive_deadline, ..c })
                &&& c.keepalive == 0 ==> c2.keepalive_deadline is None
                &&& c.keepalive > 0 ==> (c2.keepalive_deadline matches Some(d) && d == now + (
                c.keepalive * 3 / 2) * 1000000000)
            }
        }),
{
}

/// A client has expired when its deadline lies in the past; without one it
/// never does.
pub proof fn law_expired(c: ClientModel, now: u64)
    ensures
        c.keepalive_deadline is None ==> !model::is_expired(c, now),
        c.keepalive_deadline matches Some(d) ==> (model::is_expired(c, now) <==> d < now),
{
}

/// Packets are handled one after the other: those of two lists as the first
/// list and then the second, up to the first that is refused.
pub proof fn law_packets_in_order(
    m: BrokerModel,
    token: usize,
    pkt: (u8, u8, Seq<u8>),
    rest: Seq<(u8, u8, Seq<u8>)>,
    now: u64,
)
    ensures
        model::on_packets(m, token, Seq::empty(), now) == (m, Ok::<(), PacketError>(())),
        ({
            let (m1, r) = model::on_packet(m, token, pkt, now);
            &&& r is Ok ==> model::on_packets(m, token, seq![pkt] + rest, now)
                == model::on_packets(m1, token, rest, now)
            &&& r matches Err(e) ==> model::on_packets(m, token, seq![pkt] + rest, now) == (
                m1,
                Err::<(), PacketError>(e),
            )
        }),
{
    assert((seq![pkt] + rest).skip(1) =~= rest);
}

// ---- answers and acknowledgements ----

/// PINGREQ (type 12) is answered with PINGRESP; nothing else happens.
pub proof fn law_pingreq(m: BrokerModel, token: usize, flags: u8, body: Seq<u8>, now: u64)
    requires
        m.clients.contains_key(token),
    ensures
        ({
            let h = model::heard(m, token, now);
            let (m2, r) = model::on_packet(m, token, (12u8, flags, body), now);
            let (c, c2) = (h.clients[token], m2.clients[token]);
            &&& r is Ok
            &&& only_this(h, m2, token)
            &&& answered(c.write_queue, c2.write_queue, seq![0xD0u8, 0x00])
            &&& c2 == (ClientModel { write_queue: c2.write_queue, ..c })
        }),
{
    law_answer_queued(model::heard(m, token, now).clients[token], seq![0xD0u8, 0x00]);
}

/// The packet id that a body begins with.
pub open spec fn id_in(body: Seq<u8>) -> int {
    256 * body[0] + body[1]
}

/// PUBACK (type 4) and PUBCOMP (type 7) end the message with their packet id:
/// it is no longer in flight, and nothing else happens. They are refused
/// without a packet id.
pub proof fn law_acknowledged(
    m: BrokerModel,
    token: usize,
    ptype: u8,
    flags: u8,
    body: Seq<u8>,
    now: u64,
)
    requires
        ptype == 4 || ptype == 7,
        m.clients.contains_key(token),
    ensures
        ({
            let h = model::heard(m, token, now);
            let (m2, r) = model::on_packet(m, token, (ptype, flags, body), now);
            let (c, c2) = (h.clients[token], m2.clients[token]);
            &&& body.len() < 2 ==> m2 == h && r is Err
            &&& body.len() >= 2 ==> {
                &&& r is Ok
                &&& only_this(h, m2, token)
                &&& c2 == (ClientModel { in_flight: c2.in_flight, ..c })
                &&& forall|p: u16| #[trigger]
                    c2.in_flight.contains_key(p) <==> c.in_flight.contains_key(p) && p != id_in(
                        body,
                    )
                &&& forall|p: u16| #[trigger]
                    c2.in_flight.contains_key(p) ==> c2.in_flight[p] == c.in_flight[p]
            }
        }),
{
}

/// PUBREC (type 5) for a QoS 2 message that was not received yet is answered
/// with PUBREL, and the message now awaits PUBCOMP, with its timer and its count
/// renewed. For anything else in flight, or nothing, it does nothing. It is
/// refused without a packet id.
pub proof fn law_received(
    m: BrokerModel,
    token: usize,
    flags: u8,
    body: Seq<u8>,
    pid: u16,
    now: u64,
)
    requires
        m.clients.contains_key(token),
        body.len() >= 2 ==> pid == id_in(body),
    ensures
        ({
            let h = model::heard(m, token, now);
            let (m2, r) = model::on_packet(m, token, (5u8, flags, body), now);
            let (c, c2) = (h.clients[token], m2.clients[token]);
            let f = c.in_flight[pid];
            let f2 = c2.in_flight[pid];
            let awaited = c.in_flight.contains_key(pid) && f.qos2 && !f.await_pubcomp;
            &&& body.len() < 2 ==> m2 == h && r is Err
            &&& body.len() >= 2 && !awaited ==> m2 == h && r is Ok
            &&& body.len() >= 2 && awaited ==> {
                &&& r is Ok
                &&& only_this(h, m2, token)
                &&& answered(
                    c.write_queue,
                    c2.write_queue,
                    seq![0x62u8, 2, (pid / 256) as u8, (pid % 256) as u8],
                )
                &&& c2 == (ClientModel {
                    write_queue: c2.write_queue,
                    in_flight: c2.in_flight,
                    ..c
                })
                &&& c2.in_flight.dom() == c.in_flight.dom()
                &&& f2.pkt == f.pkt && f2.sent_at == now && f2.retries == 0 && f2.qos2
                    && f2.await_pubcomp
                &&& forall|p: u16| #[trigger]
                    c.in_flight.contains_key(p) && p != pid ==> c2.in_flight[p] == c.in_flight[p]
            }
        }),
{
    let h = model::heard(m, token, now);
    let c = h.clients[token];
    law_id_packet_bytes(0x62, pid);
    let f = c.in_flight[pid];
    if body.len() >= 2 && c.in_flight.contains_key(pid) && f.qos2 && !f.await_pubcomp {
        let m2 = model::on_packet(m, token, (5u8, flags, body), now).0;
        let entry = model::InFlightModel { await_pubcomp: true, sent_at: now, retries: 0, ..f };
        let c1 = ClientModel { in_flight: c.in_flight.insert(pid, entry), ..c };
        law_answer_queued(c1, crate::packet::id_packet(0x62, pid));
        assert(m2.clients[token].in_flight.dom() =~= c.in_flight.dom());
    }
}

/// PUBREL (type 6) is answered with PUBCOMP, and its packet id is no longer one
/// whose release is awaited. It is refused without a packet id.
pub proof fn law_released(
    m: BrokerModel,
    token: usize,
    flags: u8,
    body: Seq<u8>,
    pid: u16,
    now: u64,
)
    requires
        m.clients.contains_key(token),
        body.len() >= 2 ==> pid == id_in(body),
    ensures
        ({
            let h = model::heard(m, token, now);
            let (m2, r) = model::on_packet(m, token, (6u8, flags, body), now);
            let (c, c2) = (h.clients[token], m2.clients[token]);
            &&& body.len() < 2 ==> m2 == h && r is Err
            &&& body.len() >= 2 ==> {
                &&& r is Ok
                &&& only_this(h, m2, token)
                &&& answered(
                    c.write_queue,
                    c2.write_queue,
                    seq![0x70u8, 2, (pid / 256) as u8, (pid % 256) as u8],
                )
                &&& c2 == (ClientModel {
                    write_queue: c2.write_queue,
                    received_qos2: c2.received_qos2,
                    ..c
                })
                &&& forall|p: u16| #[trigger]
                    c2.received_qos2.contains(p) <==> c.received_qos2.contains(p) && p != pid
            }
        }),
{
    let c = model::heard(m, token, now).clients[token];
    law_id_packet_bytes(0x70, pid);
    let c1 = ClientModel { received_qos2: c.received_qos2.remove(pid), ..c };
    law_answer_queued(c1, crate::packet::id_packet(0x70, pid));
}

/// DISCONNECT (type 14) closes the connection, and marks that the client said
/// goodbye; nothing else happens.
pub proof fn law_goodbye(m: BrokerModel, token: usize, flags: u8, body: Seq<u8>, now: u64)
    requires
        m.clients.contains_key(token),
    ensures
        ({
            let h = model::heard(m, token, now);
            let (m2, r) = model::on_packet(m, token, (14u8, flags, body), now);
            let (c, c2) = (h.clients[token], m2.clients[token]);
            &&& r == Err::<(), PacketError>(PacketError::Disconnect)
            &&& only_this(h, m2, token)
            &&& c2.clean_disconnect
            &&& c2 == (ClientModel { clean_disconnect: c2.clean_disconnect, ..c })
        }),
{
}

/// A packet of any other type, or one whose body cannot be read, closes the
/// connection and does nothing else.
pub proof fn law_refused(
    m: BrokerModel,
    token: usize,
    ptype: u8,
    flags: u8,
    body: Seq<u8>,
    now: u64,
)
    ensures
        ({
            let (m2, r) = model::on_packet(m, token, (ptype, flags, body), now);
            let unknown = ptype == 0 || ptype == 2 || ptype == 9 || ptype == 11 || ptype == 13
                || ptype > 14;
            let unread = (ptype == 1 && connect_of(body) is None) || (ptype == 8 && subscribe_of(
                body,
            ) is None) || (ptype == 10 && unsubscribe_of(body) is None) || (ptype == 3
                && publish_of(flags, body) is None);
            &&& unknown ==> r == Err::<(), PacketError>(PacketError::Unknown(ptype))
            &&& unread ==> r is Err
            &&& unknown || unread ==> m2 == model::heard(m, token, now)
        }),
{
}

/// Each packet that cannot be read is refused with an error of its own.
pub proof fn law_refusals(m: BrokerModel, token: usize, flags: u8, body: Seq<u8>, now: u64)
    ensures
        connect_of(body) is None ==> model::on_packet(m, token, (1u8, flags, body), now).1 == Err::<
            (),
            PacketError,
        >(PacketError::BadConnect),
        subscribe_of(body) is None ==> model::on_packet(m, token, (8u8, flags, body), now).1
            == Err::<(), PacketError>(PacketError::BadSubscribe),
        unsubscribe_of(body) is None ==> model::on_packet(m, token, (10u8, flags, body), now).1
            == Err::<(), PacketError>(PacketError::BadUnsubscribe),
        publish_of(flags, body) is None ==> model::on_packet(m, token, (3u8, flags, body), now).1
            == Err::<(), PacketError>(PacketError::BadPublish),
        body.len() < 2 ==> model::on_packet(m, token, (4u8, flags, body), now).1 == Err::<
            (),
            PacketError,
        >(PacketError::BadPuback),
        body.len() < 2 ==> model::on_packet(m, token, (5u8, flags, body), now).1 == Err::<
            (),
            PacketError,
        >(PacketError::BadPubrec),
        body.len() < 2 ==> model::on_packet(m, token, (6u8, flags, body), now).1 == Err::<
            (),
            PacketError,
        >(PacketError::BadPubrel),
        body.len() < 2 ==> model::on_packet(m, token, (7u8, flags, body), now).1 == Err::<
            (),
            PacketError,
        >(PacketError::BadPubcomp),
{
}

/// A packet of a client that is gone has no effect on the table of clients, and
/// closes the connection unless it is a message without an acknowledgement.
pub proof fn law_client_gone(
    m: BrokerModel,
    token: usize,
    ptype: u8,
    flags: u8,
    body: Seq<u8>,
    now: u64,
)
    requires
        !m.clients.contains_key(token),
        ptype == 4 || ptype == 5 || ptype == 6 || ptype == 7 || ptype == 12 || ptype == 14,
        body.len() >= 2,
    ensures
        model::on_packet(m, token, (ptype, flags, body), now) == (
            m,
            Err::<(), PacketError>(PacketError::ClientGone),
        ),
{
}

// ---- CONNECT ----

/// Client `c` is what CONNECT asked for: it has its name, keepalive, will and
/// clean-session flag from `f`.
pub open spec fn named_by(
    c: ClientModel,
    f: (Seq<char>, u16, bool, u8, bool, Seq<char>, Seq<u8>, bool),
) -> bool {
    &&& c.client_id == f.0
    &&& c.keepalive == f.1
    &&& c.will_flag == f.2
    &&& c.will_qos == f.3
    &&& c.will_retain == f.4
    &&& c.will_topic == f.5
    &&& c.will_message == f.6
    &&& c.clean_session == f.7
}

/// After CONNECT (type 1) the client has the name, keepalive, will and session
/// flag that the packet holds, with a deadline to match (none for a keepalive of
/// zero), and keeps what it had read, received and said;
/// the count of connections grows by one unless the client was too slow.
pub proof fn law_connect_taken(
    m: BrokerModel,
    token: usize,
    flags: u8,
    body: Seq<u8>,
    f: (Seq<char>, u16, bool, u8, bool, Seq<char>, Seq<u8>, bool),
    now: u64,
)
    requires
        m.clients.contains_key(token),
        connect_of(body) == Some(f),
    ensures
        ({
            let (m2, r) = model::on_packet(m, token, (1u8, flags, body), now);
            let (c, c2) = (m.clients[token], m2.clients[token]);
            &&& r is Ok ==> m2.clients.contains_key(token)
            &&& m2.clients.contains_key(token) ==> {
                &&& named_by(c2, f)
                &&& c2.read_buf == c.read_buf
                &&& c2.received_qos2 == c.received_qos2
                &&& c2.clean_disconnect == c.clean_disconnect
                &&& c2.token == c.token
                &&& f.1 == 0 ==> c2.keepalive_deadline is None
                &&& f.1 > 0 && now <= 18446645771709551615 ==> (
                c2.keepalive_deadline matches Some(d) && d == now + (f.1 * 3 / 2) * 1000000000)
            }
            &&& r is Ok ==> m2.sys_clients_total == model::count(m.sys_clients_total, 1)
            &&& r is Err ==> m2.sys_clients_total == m.sys_clients_total && r == Err::<
                (),
                PacketError,
            >(PacketError::DroppedInFlush)
            &&& m2.retained == m.retained
        }),
{
    let h = model::heard(m, token, now);
    let c = model::connected_client(h.clients[token], f, now);
    if !f.7 {
        match model::session_of(h.sessions, f.0) {
            Some(s) => {
                let m1 = BrokerModel {
                    subs: h.subs + model::restored(s.subs, token),
                    ..model::put_client(h, token, c)
                };
                lemma_flush_bounded(m1, token, s.subs, s.offline, now);
                lemma_flush_frame(m1, token, s.subs, s.offline, now);
            },
            None => {},
        }
    }
}

pub proof fn lemma_flush_frame(
    m: BrokerModel,
    token: usize,
    subs: Seq<(Seq<char>, u8)>,
    queued: Seq<(Seq<char>, Seq<u8>, u8)>,
    now: u64,
)
    requires
        m.clients.contains_key(token),
    ensures
        ({
            let (m2, done) = model::flush_offline(m, token, subs, queued, now);
            &&& done <==> m2.clients.contains_key(token)
            &&& m2 == BrokerModel {
                clients: m2.clients,
                leaving: m2.leaving,
                drops: m2.drops,
                sys_pub_sent: m2.sys_pub_sent,
                ..m
            }
        }),
    decreases queued.len(),
{
    if queued.len() > 0 {
        let (topic, payload, q) = queued[0];
        let qos = match model::first_match(subs, topic) {
            Some(s) => model::min_qos(q, s),
            None => q,
        };
        let (m2, d) = model::deliver(m, token, topic, payload, qos, false, now);
        if d !is Gone {
            lemma_flush_frame(m2, token, subs, queued.skip(1), now);
        }
    }
}

/// CONNECT is answered with CONNACK, behind what was queued before. With a clean
/// session what is stored under the client's name is forgotten and nothing else
/// changes; where nothing is stored under it, nothing else changes either.
pub proof fn law_connect_answered(
    m: BrokerModel,
    token: usize,
    f: (Seq<char>, u16, bool, u8, bool, Seq<char>, Seq<u8>, bool),
    now: u64,
    e: (Seq<char>, SessionModel),
)
    requires
        m.clients.contains_key(token),
        distinct_ids(m.sessions),
        f.7 || forall|i: int| 0 <= i < m.sessions.len() ==> (#[trigger] m.sessions[i]).0 != f.0,
    ensures
        ({
            let (m2, r) = model::on_connect(m, token, f, now);
            let (c, c2) = (m.clients[token], m2.clients[token]);
            &&& r is Ok
            &&& answered(c.write_queue, c2.write_queue, seq![0x20u8, 0x02, 0x00, 0x00])
            &&& m2.clients == m.clients.insert(token, c2)
            &&& c2.in_flight == c.in_flight && c2.next_pid == c.next_pid
            &&& c2.write_pending == c.write_pending && c2.write_off == c.write_off
                && c2.write_ends == c.write_ends
            &&& m2.sessions.contains(e) <==> m.sessions.contains(e) && e.0 != f.0
            &&& m2 == (BrokerModel {
                clients: m2.clients,
                sessions: m2.sessions,
                sys_clients_total: m2.sys_clients_total,
                ..m
            })
        }),
{
    let c1 = ClientModel {
        client_id: f.0,
        keepalive: f.1,
        keepalive_deadline: model::deadline(f.1, now),
        will_flag: f.2,
        will_qos: f.3,
        will_retain: f.4,
        will_topic: f.5,
        will_message: f.6,
        clean_session: f.7,
        ..m.clients[token]
    };
    law_answer_queued(c1, seq![0x20u8, 0x02, 0x00, 0x00]);
    lemma_position(m.sessions, f.0);
    let k = model::position(m.sessions, f.0) as int;
    let s = m.sessions;
    if k < s.len() {
        assert(s[k].0 == f.0);
        let r = s.remove(k);
        if r.contains(e) {
            let j = choose|j: int| 0 <= j < r.len() && r[j] == e;
            let o = if j < k {
                j
            } else {
                j + 1
            };
            assert(s[o] == e);
        }
        if s.contains(e) && e.0 != f.0 {
            let j = choose|j: int| 0 <= j < s.len() && s[j] == e;
            let o = if j < k {
                j
            } else {
                j - 1
            };
            assert(r[o] == e);
        }
    } else if s.contains(e) {
        let j = choose|j: int| 0 <= j < s.len() && s[j] == e;
        assert(s[j].0 != f.0);
    }
}

// ---- SUBSCRIBE ----

/// The subscriptions that a list of (filter, QoS) pairs asks for, for `token`.
pub open spec fn asked_by(topics: Seq<(Seq<char>, u8)>, token: usize) -> Seq<SubModel> {
    Seq::new(
        topics.len(),
        |i: int| SubModel { filter: topics[i].0, token, qos: topics[i].1 },
    )
}

/// The retained messages that are sent for a list of filters, filter by filter.
pub open spec fn copies_for(
    stored: Seq<(Seq<char>, Seq<u8>, u8)>,
    topics: Seq<(Seq<char>, u8)>,
) -> Seq<(Seq<char>, Seq<u8>, u8)>
    decreases topics.len(),
{
    if topics.len() == 0 {
        Seq::empty()
    } else {
        retained_copies(stored, topics[0].0, topics[0].1) + copies_for(stored, topics.skip(1))
    }
}

proof fn lemma_reliable_sum(
    a: Seq<(Seq<char>, Seq<u8>, u8)>,
    b: Seq<(Seq<char>, Seq<u8>, u8)>,
)
    ensures
        reliable(a + b) == reliable(a) + reliable(b),
    decreases a.len(),
{
    if a.len() == 0 {
        assert(a + b =~= b);
    } else {
        assert((a + b).skip(1) =~= a.skip(1) + b);
        lemma_reliable_sum(a.skip(1), b);
    }
}

proof fn lemma_sent_joined(
    q0: Seq<(bool, Seq<u8>)>,
    q1: Seq<(bool, Seq<u8>)>,
    q2: Seq<(bool, Seq<u8>)>,
    a: Seq<(Seq<char>, Seq<u8>, u8)>,
    b: Seq<(Seq<char>, Seq<u8>, u8)>,
    retain: bool,
)
    requires
        sent_all(q0, q1, a, retain),
        sent_all(q1, q2, b, retain),
    ensures
        sent_all(q0, q2, a + b, retain),
{
    let msgs = a + b;
    let n = q0.len() as int;
    assert(q2.take(n) =~= q0) by {
        assert forall|j: int| 0 <= j < n implies q2[j] == q0[j] by {
            assert(q2.take(q1.len() as int)[j] == q1[j]);
            assert(q1.take(n)[j] == q0[j]);
        }
    }
    assert forall|i: int| #![trigger msgs[i]] 0 <= i < msgs.len() implies
        crate::laws::delivery::carries(q2[n + i], msgs[i].0, msgs[i].1, msgs[i].2, retain) by {
        if i < a.len() {
            assert(msgs[i] == a[i]);
            assert(q2.take(q1.len() as int)[n + i] == q1[n + i]);
        } else {
            assert(msgs[i] == b[i - a.len()]);
            assert(q1.len() + (i - a.len()) == n + i);
        }
    }
}

proof fn lemma_subscribe_list(
    m: BrokerModel,
    token: usize,
    topics: Seq<(Seq<char>, u8)>,
    now: u64,
)
    requires
        m.clients.contains_key(token),
        has_room(
            m.clients[token],
            copies_for(m.retained, topics).len() + 1,
            reliable(copies_for(m.retained, topics)),
        ),
    ensures
        ({
            let (m2, done) = model::subscribe_all(m, token, topics, now);
            &&& done
            &&& m2.subs == m.subs + asked_by(topics, token)
            &&& only_client(BrokerModel { subs: m2.subs, ..m }, m2, token)
            &&& has_room(m2.clients[token], 1, 0)
            &&& sent_all(
                m.clients[token].write_queue,
                m2.clients[token].write_queue,
                copies_for(m.retained, topics),
                true,
            )
        }),
    decreases topics.len(),
{
    let q0 = m.clients[token].write_queue;
    if topics.len() == 0 {
        assert(q0.take(q0.len() as int) =~= q0);
        assert(m.clients =~= m.clients.insert(token, m.clients[token]));
        assert(m.subs + asked_by(topics, token) =~= m.subs);
    } else {
        let (filter, qos) = topics[0];
        let rest = topics.skip(1);
        let first = retained_copies(m.retained, filter, qos);
        let more = copies_for(m.retained, rest);
        lemma_reliable_sum(first, more);
        let m1 = BrokerModel { subs: m.subs.push(SubModel { filter, token, qos }), ..m };
        lemma_deliver_retained(
            m1,
            token,
            filter,
            qos,
            m1.retained,
            now,
            more.len() + 1,
            reliable(more),
        );
        let m2 = model::deliver_retained(m1, token, filter, qos, m1.retained, now).0;
        lemma_subscribe_list(m2, token, rest, now);
        let m3 = model::subscribe_all(m2, token, rest, now).0;
        assert(m3.subs =~= m.subs + asked_by(topics, token));
        let a = BrokerModel { subs: m3.subs, ..m1 };
        let b = BrokerModel { subs: m3.subs, ..m2 };
        assert(only_client(a, b, token));
        lemma_only_client_trans(a, b, m3, token);
        lemma_sent_joined(
            q0,
            m2.clients[token].write_queue,
            m3.clients[token].write_queue,
            first,
            more,
            true,
        );
    }
}

/// A client with room that sends a SUBSCRIBE holds one more subscription for
/// each pair of filter and QoS, in order and behind those there were; it is sent
/// what is retained for each of the filters, filter by filter, and last the
/// SUBACK with the packet id and the QoS of each pair. Nothing else changes.
pub proof fn law_subscribe_list(
    m: BrokerModel,
    token: usize,
    pid: u16,
    topics: Seq<(Seq<char>, u8)>,
    now: u64,
)
    requires
        m.clients.contains_key(token),
        has_room(
            m.clients[token],
            copies_for(m.retained, topics).len() + 1,
            reliable(copies_for(m.retained, topics)),
        ),
    ensures
        ({
            let (m2, r) = model::on_subscribe(m, token, pid, topics, now);
            let q2 = m2.clients[token].write_queue;
            let grants = Seq::new(topics.len(), |i: int| topics[i].1);
            &&& r is Ok
            &&& m2.subs == m.subs + asked_by(topics, token)
            &&& only_client(BrokerModel { subs: m2.subs, ..m }, m2, token)
            &&& sent_all(
                m.clients[token].write_queue,
                q2.drop_last(),
                copies_for(m.retained, topics),
                true,
            )
            &&& q2.last() == (
                false,
                framed(0x90, seq![(pid / 256) as u8, (pid % 256) as u8] + grants),
            )
        }),
{
    lemma_subscribe_list(m, token, topics, now);
    let m2 = model::subscribe_all(m, token, topics, now).0;
    let grants = Seq::new(topics.len(), |i: int| topics[i].1);
    assert(model::grants(topics) =~= grants);
    let suback = framed(0x90, be16(pid) + grants);
    let m3 = model::on_subscribe(m, token, pid, topics, now).0;
    law_answer_queued(m2.clients[token], suback);
    let base = BrokerModel { subs: m3.subs, ..m };
    assert(m3.clients =~= m.clients.insert(token, m3.clients[token]));
}

proof fn lemma_retained_frame(
    m: BrokerModel,
    token: usize,
    filter: Seq<char>,
    qos: u8,
    stored: Seq<(Seq<char>, Seq<u8>, u8)>,
    now: u64,
)
    requires
        m.clients.contains_key(token),
    ensures
        ({
            let (m2, done) = model::deliver_retained(m, token, filter, qos, stored, now);
            &&& done <==> m2.clients.contains_key(token)
            &&& m2 == BrokerModel {
                clients: m2.clients,
                leaving: m2.leaving,
                drops: m2.drops,
                sys_pub_sent: m2.sys_pub_sent,
                ..m
            }
        }),
    decreases stored.len(),
{
    if stored.len() == 0 {
    } else if !filter_matches(filter, stored[0].0) {
        lemma_retained_frame(m, token, filter, qos, stored.skip(1), now);
    } else {
        let s = stored[0];
        let (m2, d) = model::deliver(m, token, s.0, s.1, model::min_qos(s.2, qos), true, now);
        if d !is Gone {
            lemma_retained_frame(m2, token, filter, qos, stored.skip(1), now);
        }
    }
}

proof fn lemma_subscribe_frame(
    m: BrokerModel,
    token: usize,
    topics: Seq<(Seq<char>, u8)>,
    now: u64,
)
    requires
        m.clients.contains_key(token),
    ensures
        ({
            let (m2, done) = model::subscribe_all(m, token, topics, now);
            &&& done <==> m2.clients.contains_key(token)
            &&& done ==> m2.subs == m.subs + asked_by(topics, token)
            &&& m2 == BrokerModel {
                clients: m2.clients,
                subs: m2.subs,
                leaving: m2.leaving,
                drops: m2.drops,
                sys_pub_sent: m2.sys_pub_sent,
                ..m
            }
        }),
    decreases topics.len(),
{
    if topics.len() == 0 {
        assert(m.subs + asked_by(topics, token) =~= m.subs);
    } else {
        let (filter, qos) = topics[0];
        let m1 = BrokerModel { subs: m.subs.push(SubModel { filter, token, qos }), ..m };
        lemma_retained_frame(m1, token, filter, qos, m1.retained, now);
        let (m2, done) = model::deliver_retained(m1, token, filter, qos, m1.retained, now);
        if done {
            lemma_subscribe_frame(m2, token, topics.skip(1), now);
            let m3 = model::subscribe_all(m2, token, topics.skip(1), now).0;
            assert(m2.subs + asked_by(topics.skip(1), token) =~= m.subs + asked_by(topics, token));
        }
    }
}

/// Room or not, a SUBSCRIBE (type 8) that does not cost the client its
/// connection adds one subscription for each pair, in order, and changes no
/// other and nothing that is retained or stored; where it does, the client was
/// too slow for what is retained.
pub proof fn law_subscribe_adds(
    m: BrokerModel,
    token: usize,
    flags: u8,
    body: Seq<u8>,
    pid: u16,
    topics: Seq<(Seq<char>, u8)>,
    now: u64,
)
    requires
        m.clients.contains_key(token),
        subscribe_of(body) == Some((pid, topics)),
    ensures
        ({
            let (m2, r) = model::on_packet(m, token, (8u8, flags, body), now);
            &&& r is Ok <==> m2.clients.contains_key(token)
            &&& r is Ok ==> m2.subs == m.subs + asked_by(topics, token)
            &&& r is Err ==> r == Err::<(), PacketError>(PacketError::DroppedInRetained)
            &&& m2.retained == m.retained && m2.sessions == m.sessions
            &&& m2.sys_pub_received == m.sys_pub_received
        }),
{
    lemma_subscribe_frame(model::heard(m, token, now), token, topics, now);
}

// ---- UNSUBSCRIBE ----

/// UNSUBSCRIBE takes out the client's subscriptions to the filters it names and
/// leaves the others, each in its place: what is left of two tables put together
/// is what is left of each.
pub proof fn law_unsubscribe_one_by_one(
    a: Seq<SubModel>,
    b: Seq<SubModel>,
    s: SubModel,
    token: usize,
    filters: Seq<Seq<char>>,
)
    ensures
        model::subs_without(Seq::empty(), token, filters) == Seq::<SubModel>::empty(),
        model::subs_without(seq![s], token, filters) == (if s.token == token && (exists|i: int|
            0 <= i < filters.len() && #[trigger] filters[i] == s.filter) {
            Seq::<SubModel>::empty()
        } else {
            seq![s]
        }),
        model::subs_without(a + b, token, filters) == model::subs_without(a, token, filters)
            + model::subs_without(b, token, filters),
{
    let keep = |x: SubModel| !(x.token == token && filters.contains(x.filter));
    lemma_filter_one(s, keep);
    lemma_filter_sum(a, b, keep);
}

pub proof fn lemma_filter_one<T>(t: T, keep: spec_fn(T) -> bool)
    ensures
        Seq::<T>::empty().filter(keep) == Seq::<T>::empty(),
        seq![t].filter(keep) == (if keep(t) {
            seq![t]
        } else {
            Seq::empty()
        }),
{
    reveal(Seq::filter);
    assert(seq![t].drop_last() =~= Seq::empty());
    assert(Seq::<T>::empty().filter(keep) =~= Seq::<T>::empty());
    assert(seq![t].drop_last().filter(keep) =~= Seq::<T>::empty());
    assert(seq![t].filter(keep) =~= (if keep(t) {
        seq![t]
    } else {
        Seq::empty()
    }));
}

pub proof fn lemma_filter_sum<T>(a: Seq<T>, b: Seq<T>, keep: spec_fn(T) -> bool)
    ensures
        (a + b).filter(keep) == a.filter(keep) + b.filter(keep),
    decreases b.len(),
{
    reveal(Seq::filter);
    if b.len() == 0 {
        assert(a + b =~= a);
        assert((a + b).filter(keep) =~= a.filter(keep) + b.filter(keep));
    } else {
        let rest = b.drop_last();
        assert((a + b).drop_last() =~= a + rest);
        assert((a + b).last() == b.last());
        lemma_filter_sum(a, rest, keep);
        assert((a + b).filter(keep) =~= a.filter(keep) + b.filter(keep));
    }
}

/// UNSUBSCRIBE (type 10) is answered with UNSUBACK and changes nothing but the
/// table of subscriptions.
pub proof fn law_unsubscribe_answered(
    m: BrokerModel,
    token: usize,
    flags: u8,
    body: Seq<u8>,
    pid: u16,
    filters: Seq<Seq<char>>,
    now: u64,
)
    requires
        m.clients.contains_key(token),
        unsubscribe_of(body) == Some((pid, filters)),
    ensures
        ({
            let h = model::heard(m, token, now);
            let (m2, r) = model::on_packet(m, token, (10u8, flags, body), now);
            let (c, c2) = (h.clients[token], m2.clients[token]);
            &&& r is Ok
            &&& m2.subs == model::subs_without(m.subs, token, filters)
            &&& only_this(BrokerModel { subs: m2.subs, ..h }, m2, token)
            &&& answered(
                c.write_queue,
                c2.write_queue,
                seq![0xB0u8, 2, (pid / 256) as u8, (pid % 256) as u8],
            )
            &&& c2 == (ClientModel { write_queue: c2.write_queue, ..c })
        }),
{
    law_id_packet_bytes(0xB0, pid);
    law_answer_queued(
        model::heard(m, token, now).clients[token],
        crate::packet::id_packet(0xB0, pid),
    );
}

// ---- PUBLISH ----

/// A PUBLISH (type 3) is answered first: at QoS 1 with PUBACK, at QoS 2 with
/// PUBREC and by noting its packet id, at QoS 0 not at all. Then it is published
/// and counted, unless it is of QoS 2 and its packet id was noted before. Nothing
/// is refused. `m1` is the state between the two.
pub proof fn law_publish_packet(
    m: BrokerModel,
    token: usize,
    flags: u8,
    body: Seq<u8>,
    f: (Seq<char>, u8, Option<u16>, Seq<u8>, bool),
    now: u64,
) -> (m1: BrokerModel)
    requires
        m.clients.contains_key(token),
        publish_of(flags, body) == Some(f),
    ensures
        ({
            let h = model::heard(m, token, now);
            let (m2, r) = model::on_packet(m, token, (3u8, flags, body), now);
            let (c, c1) = (h.clients[token], m1.clients[token]);
            let (topic, qos, id, payload, retain) = f;
            let pid = id->0;
            let known = qos == 2 && c.received_qos2.contains(pid);
            let p = model::publish(m1, topic, payload, qos, retain, now).0;
            &&& r is Ok
            &&& id is Some <==> qos > 0
            &&& qos == 0 || qos > 2 ==> m1 == h
            &&& qos == 1 || qos == 2 ==> only_this(h, m1, token)
            &&& qos == 1 ==> answered(
                c.write_queue,
                c1.write_queue,
                seq![0x40u8, 2, (pid / 256) as u8, (pid % 256) as u8],
            ) && c1 == (ClientModel { write_queue: c1.write_queue, ..c })
            &&& qos == 2 ==> answered(
                c.write_queue,
                c1.write_queue,
                seq![0x50u8, 2, (pid / 256) as u8, (pid % 256) as u8],
            ) && c1 == (ClientModel {
                write_queue: c1.write_queue,
                received_qos2: c1.received_qos2,
                ..c
            }) && forall|q: u16| #[trigger]
                c1.received_qos2.contains(q) <==> c.received_qos2.contains(q) || q == pid
            &&& known ==> m2 == m1
            &&& !known ==> m2 == (BrokerModel {
                sys_pub_received: model::count(p.sys_pub_received, 1),
                dead_pruned: 0,
                ..p
            })
        }),
{
    let h = model::heard(m, token, now);
    let c = h.clients[token];
    let (topic, qos, id, payload, retain) = f;
    match id {
        Some(pid) if qos == 1 => {
            law_id_packet_bytes(0x40, pid);
            law_answer_queued(c, crate::packet::id_packet(0x40, pid));
            model::reply(h, token, crate::packet::id_packet(0x40, pid))
        },
        Some(pid) if qos == 2 => {
            law_id_packet_bytes(0x50, pid);
            let c1 = ClientModel { received_qos2: c.received_qos2.insert(pid), ..c };
            law_answer_queued(c1, crate::packet::id_packet(0x50, pid));
            model::put_client(h, token, model::with_qos0(c1, crate::packet::id_packet(0x50, pid)))
        },
        _ => h,
    }
}

// ---- step by step ----

/// CONNECT under a name that a session is stored for: the stored subscriptions
/// are taken up behind those there are, and the stored messages sent. If the
/// client takes them all, the session is no longer stored and the connection is
/// counted; if not, the session stays, and is not stored again when the client's
/// departure is seen to. `m0` is the broker without stored sessions.
pub proof fn law_session_taken_up(
    m: BrokerModel,
    token: usize,
    f: (Seq<char>, u16, bool, u8, bool, Seq<char>, Seq<u8>, bool),
    now: u64,
    s: SessionModel,
    i: int,
)
    requires
        m.clients.contains_key(token),
        !f.7,
        model::session_of(m.sessions, f.0) == Some(s),
    ensures
        ({
            let m0 = BrokerModel { sessions: Seq::empty(), ..m };
            let named = model::on_connect(m0, token, f, now).0.clients;
            let m1 = BrokerModel {
                clients: named,
                subs: m.subs + model::restored(s.subs, token),
                ..m
            };
            let (m2, done) = model::flush_offline(m1, token, s.subs, s.offline, now);
            let (m3, r) = model::on_connect(m, token, f, now);
            &&& done <==> r is Ok
            &&& m3.clients == m2.clients && m3.subs == m2.subs
            &&& done ==> m3 == (BrokerModel {
                sessions: model::without_session(m.sessions, f.0),
                sys_clients_total: model::count(m.sys_clients_total, 1),
                ..m2
            })
            &&& !done ==> {
                &&& r == Err::<(), PacketError>(PacketError::DroppedInFlush)
                &&& m3 == (BrokerModel { leaving: m3.leaving, ..m2 })
                &&& m3.leaving.len() == m2.leaving.len()
                &&& 0 <= i < m2.leaving.len() ==> m3.leaving[i] == (DepartureModel {
                    keep: m2.leaving[i].keep && m2.leaving[i].token != token,
                    ..m2.leaving[i]
                })
            }
        }),
{
    let m0 = BrokerModel { sessions: Seq::empty(), ..m };
    assert(model::session_of(m0.sessions, f.0) is None);
    let m1 = BrokerModel {
        subs: m.subs + model::restored(s.subs, token),
        ..model::put_client(m, token, model::connected_client(m.clients[token], f, now))
    };
    lemma_flush_frame(m1, token, s.subs, s.offline, now);
}

/// SUBSCRIBE takes its pairs of filter and QoS one after the other, up to the
/// one at which the client is lost: each becomes the last subscription, and then
/// what is retained for it is sent. At the end comes the SUBACK.
pub proof fn law_subscribe_in_order(
    m: BrokerModel,
    token: usize,
    t: (Seq<char>, u8),
    rest: Seq<(Seq<char>, u8)>,
    pid: u16,
    now: u64,
)
    ensures
        model::subscribe_all(m, token, Seq::empty(), now) == (m, true),
        ({
            let (filter, qos) = t;
            let m1 = BrokerModel { subs: m.subs + seq![SubModel { filter, token, qos }], ..m };
            let (m2, done) = model::deliver_retained(m1, token, filter, qos, m.retained, now);
            let all = model::subscribe_all(m, token, seq![t] + rest, now);
            &&& done ==> all == model::subscribe_all(m2, token, rest, now)
            &&& !done ==> all == (m2, false)
        }),
        ({
            let (m2, done) = model::subscribe_all(m, token, rest, now);
            let (m3, r) = model::on_subscribe(m, token, pid, rest, now);
            let grants = Seq::new(rest.len(), |i: int| rest[i].1);
            let (c, c2) = (m2.clients[token], m3.clients[token]);
            &&& !done ==> m3 == m2 && r == Err::<(), PacketError>(PacketError::DroppedInRetained)
            &&& done && !m2.clients.contains_key(token) ==> m3 == m2 && r == Err::<
                (),
                PacketError,
            >(PacketError::ClientGone)
            &&& done && m2.clients.contains_key(token) ==> {
                &&& r is Ok
                &&& only_this(m2, m3, token)
                &&& answered(
                    c.write_queue,
                    c2.write_queue,
                    framed(144, seq![(pid / 256) as u8, (pid % 256) as u8] + grants),
                )
                &&& c2 == (ClientModel { write_queue: c2.write_queue, ..c })
            }
        }),
{
    let (filter, qos) = t;
    let sub = SubModel { filter, token, qos };
    assert(m.subs.push(sub) =~= m.subs + seq![sub]);
    assert((seq![t] + rest).skip(1) =~= rest);
    let grants = Seq::new(rest.len(), |i: int| rest[i].1);
    assert(model::grants(rest) =~= grants);
    assert(be16(pid) =~= seq![(pid / 256) as u8, (pid % 256) as u8]);
    let m2 = model::subscribe_all(m, token, rest, now).0;
    law_answer_queued(
        m2.clients[token],
        framed(144, seq![(pid / 256) as u8, (pid % 256) as u8] + grants),
    );
}

/// CONNECT, UNSUBSCRIBE and PUBLISH of a client that is gone: the connection is
/// closed, except for a PUBLISH that needs no answer, which is published. All
/// that UNSUBSCRIBE does is to take out subscriptions.
pub proof fn law_requests_of_gone(
    m: BrokerModel,
    token: usize,
    flags: u8,
    body: Seq<u8>,
    now: u64,
)
    requires
        !m.clients.contains_key(token),
    ensures
        connect_of(body) is Some ==> model::on_packet(m, token, (1u8, flags, body), now) == (
            m,
            Err::<(), PacketError>(PacketError::ClientGone),
        ),
        unsubscribe_of(body) matches Some((_, filters)) ==> model::on_packet(
            m,
            token,
            (10u8, flags, body),
            now,
        ) == (
            BrokerModel { subs: model::subs_without(m.subs, token, filters), ..m },
            Err::<(), PacketError>(PacketError::ClientGone),
        ),
        publish_of(flags, body) matches Some((topic, qos, _, payload, retain)) ==> ({
            let (m2, r) = model::on_packet(m, token, (3u8, flags, body), now);
            let p = model::publish(m, topic, payload, qos, retain, now).0;
            &&& qos == 1 || qos == 2 ==> m2 == m && r == Err::<(), PacketError>(
                PacketError::ClientGone,
            )
            &&& qos == 0 || qos > 2 ==> r is Ok && m2 == (BrokerModel {
                sys_pub_received: model::count(p.sys_pub_received, 1),
                dead_pruned: 0,
                ..p
            })
        }),
{
}

} // verus!
