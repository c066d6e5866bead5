//! The broker as a mathematical object: its state, and what each event does
//! to it.
use crate::bytes::{be16, be16_at, rem_at};
use crate::frame::{packets_of, FrameError};
use crate::order::{sorted_pids, sorted_tokens};
use crate::packet::{
    connect_of, framed, id_packet, publish_of, publish_packet, subscribe_of, unsubscribe_of,
    CONNECT, DISCONNECT, PINGREQ, PUBACK, PUBCOMP, PUBLISH, PUBREC, PUBREL, SUBSCRIBE, UNSUBSCRIBE,
};
use crate::topic::filter_matches;
use vstd::prelude::*;
use vstd::utf8::encode_utf8;

verus! {

/// The most unparsed bytes a connection may hold.
pub const READ_CAP: usize = 65536;

/// The most packets that wait for one client.
pub const WRITE_QUEUE_CAP: usize = 8192;

/// The most unacknowledged messages of one client.
pub const IN_FLIGHT_CAP: usize = 256;

/// The most messages kept for one absent client.
pub const OFFLINE_CAP: usize = 1024;

/// How often an unanswered message is sent again before the client is given up.
pub const QOS1_MAX_RETRIES: u32 = 3;

/// Packets are joined into one write until it holds this many bytes.
pub const BATCH_MAX: usize = 32768;

/// One second, in the nanoseconds that all times are counted in.
pub const SECOND: u64 = 1000000000;

/// The latest time at which a keepalive deadline can still be written down.
pub const LATEST: u64 = 18446645771709551615;

/// The version topic and its companions are published this far apart.
pub const SYS_INTERVAL: u64 = 10000000000;

/// Why a connection is closed.
pub enum PacketError {
    /// A packet announced this many bytes.
    TooLarge(usize),
    /// The remaining length of a packet takes more than four bytes.
    BadLength,
    BadConnect,
    BadSubscribe,
    BadUnsubscribe,
    BadPublish,
    BadPuback,
    BadPubrec,
    BadPubrel,
    BadPubcomp,
    /// The client was too slow to take its stored messages.
    DroppedInFlush,
    /// The client was too slow to take retained messages.
    DroppedInRetained,
    /// The client said goodbye.
    Disconnect,
    /// A packet of this unknown type arrived.
    Unknown(u8),
    /// The client was removed while its packets were being handled.
    ClientGone,
}

/// What became of one message for one client.
pub enum Delivery {
    /// It was queued.
    Sent,
    /// It was a QoS 0 message and the queue was full: it was dropped.
    Dropped,
    /// The client is not there, or was removed for being too slow.
    Gone,
}

/// What a read from a connection gave.
pub enum ReadOutcome {
    Eof,
    Data(Vec<u8>),
    WouldBlock,
    Failed,
}

#[verifier::ext_equal]
pub struct SubModel {
    pub filter: Seq<char>,
    pub token: usize,
    pub qos: u8,
}

#[verifier::ext_equal]
pub struct InFlightModel {
    pub pkt: Seq<u8>,
    pub sent_at: u64,
    pub retries: u32,
    pub qos2: bool,
    pub await_pubcomp: bool,
}

#[verifier::ext_equal]
pub struct ClientModel {
    pub read_buf: Seq<u8>,
    pub write_queue: Seq<(bool, Seq<u8>)>,
    pub write_pending: Seq<u8>,
    pub write_off: usize,
    pub write_ends: Seq<nat>,
    pub client_id: Seq<char>,
    pub keepalive: u16,
    pub keepalive_deadline: Option<u64>,
    pub token: usize,
    pub next_pid: u16,
    pub in_flight: Map<u16, InFlightModel>,
    pub received_qos2: Set<u16>,
    pub will_flag: bool,
    pub will_qos: u8,
    pub will_retain: bool,
    pub will_topic: Seq<char>,
    pub will_message: Seq<u8>,
    pub clean_disconnect: bool,
    pub clean_session: bool,
}

#[verifier::ext_equal]
pub struct SessionModel {
    pub subs: Seq<(Seq<char>, u8)>,
    pub offline: Seq<(Seq<char>, Seq<u8>, u8)>,
}

/// What is still to be done for a client that was removed for being too slow:
/// its session is to be stored if `keep` says so, its last will to be published
/// if `will_flag` does.
#[verifier::ext_equal]
pub struct DepartureModel {
    pub token: usize,
    pub client_id: Seq<char>,
    pub keep: bool,
    pub session: SessionModel,
    pub will_flag: bool,
    pub will: (Seq<char>, Seq<u8>, u8, bool),
}

#[verifier::ext_equal]
pub struct BrokerModel {
    pub clients: Map<usize, ClientModel>,
    pub subs: Seq<SubModel>,
    pub next_token: usize,
    pub drops: u64,
    pub dead_pruned: u64,
    pub retained: Seq<(Seq<char>, Seq<u8>, u8)>,
    pub sessions: Seq<(Seq<char>, SessionModel)>,
    pub leaving: Seq<DepartureModel>,
    pub sys_clients_total: u64,
    pub sys_msgs_received: u64,
    pub sys_msgs_sent: u64,
    pub sys_pub_received: u64,
    pub sys_pub_sent: u64,
    pub sys_start: u64,
    pub sys_last_publish: u64,
}

/// The sum of a counter and `n`, modulo 2^64.
pub open spec fn count(counter: u64, n: nat) -> u64 {
    ((counter + n) % 0x1_0000_0000_0000_0000) as u64
}

pub open spec fn min_qos(a: u8, b: u8) -> u8 {
    if a <= b {
        a
    } else {
        b
    }
}

// ---- one client ----

/// A connection that has just been accepted.
pub open spec fn fresh_client(token: usize) -> ClientModel {
    ClientModel {
        read_buf: Seq::empty(),
        write_queue: Seq::empty(),
        write_pending: Seq::empty(),
        write_off: 0,
        write_ends: Seq::empty(),
        client_id: Seq::empty(),
        keepalive: 0,
        keepalive_deadline: None,
        token,
        next_pid: 1,
        in_flight: Map::empty(),
        received_qos2: Set::empty(),
        will_flag: false,
        will_qos: 0,
        will_retain: false,
        will_topic: Seq::empty(),
        will_message: Seq::empty(),
        clean_disconnect: false,
        clean_session: true,
    }
}

/// The client with `pkt` queued, if there is room; otherwise `pkt` is dropped.
pub open spec fn with_qos0(c: ClientModel, pkt: Seq<u8>) -> ClientModel {
    if c.write_queue.len() < WRITE_QUEUE_CAP {
        ClientModel { write_queue: c.write_queue.push((false, pkt)), ..c }
    } else {
        c
    }
}

/// The position of the first entry of `q` that may be dropped; its length if
/// there is none.
pub open spec fn first_droppable(q: Seq<(bool, Seq<u8>)>) -> nat
    decreases q.len(),
{
    if q.len() == 0 || !q[0].0 {
        0
    } else {
        1 + first_droppable(q.skip(1))
    }
}

/// `q` with its oldest droppable entries taken out until there is room for one
/// more, or until no such entry is left.
pub open spec fn make_room(q: Seq<(bool, Seq<u8>)>) -> Seq<(bool, Seq<u8>)>
    decreases q.len(),
{
    let i = first_droppable(q) as int;
    if q.len() < WRITE_QUEUE_CAP || i >= q.len() {
        q
    } else {
        make_room(q.remove(i))
    }
}

/// The `k`-th packet id from `start` on, in the cycle 1, 2, ..., 65535.
pub open spec fn pid_at(start: u16, k: nat) -> u16 {
    let first = if start == 0 {
        1
    } else {
        start as int
    };
    ((first - 1 + k) % 65535 + 1) as u16
}

/// The number of ids from `start` on that are taken before the first free one.
pub open spec fn taken_run(used: Set<u16>, start: u16, k: nat) -> nat
    decreases 65535 - k,
{
    if k >= 65535 || !used.contains(pid_at(start, k)) {
        k
    } else {
        taken_run(used, start, k + 1)
    }
}

/// The first packet id from `start` on that is not taken.
pub open spec fn free_pid(used: Set<u16>, start: u16) -> u16 {
    pid_at(start, taken_run(used, start, 0))
}

/// The id to try first after `pid`.
pub open spec fn pid_after(pid: u16) -> u16 {
    if pid == 65535 {
        0
    } else {
        (pid + 1) as u16
    }
}

/// What a client does with one message.
pub enum Accept {
    Queued(ClientModel),
    Full,
    TooSlow,
}

/// A message for client `c`, at the QoS it is to be forwarded with. QoS 0
/// needs room in the queue. QoS 1 and 2 need a place among the unacknowledged
/// messages, and push QoS 0 packets out of a full queue.
pub open spec fn accept(
    c: ClientModel,
    topic: Seq<char>,
    payload: Seq<u8>,
    qos: u8,
    retain: bool,
    now: u64,
) -> Accept {
    if qos == 0 {
        if c.write_queue.len() < WRITE_QUEUE_CAP {
            Accept::Queued(
                with_qos0(c, publish_packet(encode_utf8(topic), payload, 0, None, false, retain)),
            )
        } else {
            Accept::Full
        }
    } else if c.in_flight.dom().len() >= IN_FLIGHT_CAP {
        Accept::TooSlow
    } else {
        let pid = free_pid(c.in_flight.dom(), c.next_pid);
        let pkt = publish_packet(encode_utf8(topic), payload, qos, Some(pid), false, retain);
        let q = make_room(c.write_queue);
        if q.len() >= WRITE_QUEUE_CAP {
            Accept::TooSlow
        } else {
            Accept::Queued(
                ClientModel {
                    write_queue: q.push((true, pkt)),
                    next_pid: pid_after(pid),
                    in_flight: c.in_flight.insert(
                        pid,
                        InFlightModel {
                            pkt,
                            sent_at: now,
                            retries: 0,
                            qos2: qos == 2,
                            await_pubcomp: false,
                        },
                    ),
                    ..c
                },
            )
        }
    }
}

// ---- delivery ----

/// The broker with client `token` replaced by `c`.
pub open spec fn put_client(m: BrokerModel, token: usize, c: ClientModel) -> BrokerModel {
    BrokerModel { clients: m.clients.insert(token, c), ..m }
}

/// A client that keeps its session leaves with its subscriptions and the
/// reliable messages still in its queue.
pub open spec fn taken_along(m: BrokerModel, token: usize) -> SessionModel {
    SessionModel {
        subs: subs_of(m.subs, token),
        offline: queued_messages(m.clients[token].write_queue),
    }
}

/// What is to be done for client `token` when it is removed for being too slow.
pub open spec fn departure(m: BrokerModel, token: usize) -> DepartureModel {
    let c = m.clients[token];
    DepartureModel {
        token,
        client_id: c.client_id,
        keep: persistent(c),
        session: if persistent(c) {
            taken_along(m, token)
        } else {
            SessionModel { subs: Seq::empty(), offline: Seq::empty() }
        },
        will_flag: c.will_flag && !c.clean_disconnect,
        will: (c.will_topic, c.will_message, c.will_qos, c.will_retain),
    }
}

/// One message for one client. A client that cannot take a QoS 1 or 2 message
/// is removed; its departure is noted, to be seen to by `settle`.
pub open spec fn deliver(
    m: BrokerModel,
    token: usize,
    topic: Seq<char>,
    payload: Seq<u8>,
    qos: u8,
    retain: bool,
    now: u64,
) -> (BrokerModel, Delivery) {
    if !m.clients.contains_key(token) {
        (m, Delivery::Gone)
    } else {
        match accept(m.clients[token], topic, payload, qos, retain, now) {
            Accept::Queued(c) => (
                BrokerModel { sys_pub_sent: count(m.sys_pub_sent, 1), ..put_client(m, token, c) },
                Delivery::Sent,
            ),
            Accept::Full => (
                BrokerModel { drops: count(m.drops, 1), ..m },
                Delivery::Dropped,
            ),
            Accept::TooSlow => (
                BrokerModel {
                    clients: m.clients.remove(token),
                    leaving: m.leaving.push(departure(m, token)),
                    ..m
                },
                Delivery::Gone,
            ),
        }
    }
}

/// `s` with the entry at `i` replaced by the last one.
pub open spec fn swap_out<T>(s: Seq<T>, i: int) -> Seq<T> {
    s.update(i, s.last()).drop_last()
}

/// One message for every matching subscription from position `i` on, with the
/// numbers of subscriptions served, of messages dropped, and of subscriptions
/// taken out because their client is gone.
pub open spec fn fan_out(
    m: BrokerModel,
    i: int,
    topic: Seq<char>,
    payload: Seq<u8>,
    qos: u8,
    now: u64,
) -> (BrokerModel, nat, nat, nat)
    decreases m.subs.len() - i,
{
    if i < 0 || i >= m.subs.len() {
        (m, 0, 0, 0)
    } else if !filter_matches(m.subs[i].filter, topic) {
        fan_out(m, i + 1, topic, payload, qos, now)
    } else {
        let sub = m.subs[i];
        let (m2, d) = deliver(m, sub.token, topic, payload, min_qos(qos, sub.qos), false, now);
        match d {
            Delivery::Sent => {
                let r = fan_out(m2, i + 1, topic, payload, qos, now);
                (r.0, r.1 + 1, r.2, r.3)
            },
            Delivery::Dropped => {
                let r = fan_out(m2, i + 1, topic, payload, qos, now);
                (r.0, r.1, r.2 + 1, r.3)
            },
            Delivery::Gone => {
                let m3 = BrokerModel { subs: swap_out(m2.subs, i), ..m2 };
                let r = fan_out(m3, i, topic, payload, qos, now);
                (r.0, r.1, r.2, r.3 + 1)
            },
        }
    }
}

// ---- retained messages ----

/// The position of the first entry with key `key`; the length if there is none.
pub open spec fn position<V>(s: Seq<(Seq<char>, V)>, key: Seq<char>) -> nat
    decreases s.len(),
{
    if s.len() == 0 || s[0].0 == key {
        0
    } else {
        1 + position(s.skip(1), key)
    }
}

/// The position of the message retained for `topic`; the length if there is none.
pub open spec fn retained_at(s: Seq<(Seq<char>, Seq<u8>, u8)>, topic: Seq<char>) -> nat
    decreases s.len(),
{
    if s.len() == 0 || s[0].0 == topic {
        0
    } else {
        1 + retained_at(s.skip(1), topic)
    }
}

/// The retained messages after `payload` is published with the retain flag: an
/// empty payload clears, any other replaces.
pub open spec fn retain_message(
    s: Seq<(Seq<char>, Seq<u8>, u8)>,
    topic: Seq<char>,
    payload: Seq<u8>,
    qos: u8,
) -> Seq<(Seq<char>, Seq<u8>, u8)> {
    let i = retained_at(s, topic) as int;
    if payload.len() == 0 {
        if i < s.len() {
            s.remove(i)
        } else {
            s
        }
    } else if i < s.len() {
        s.update(i, (topic, payload, qos))
    } else {
        s.push((topic, payload, qos))
    }
}

// ---- persistent sessions ----

/// The QoS of the first subscription that matches `topic`.
pub open spec fn first_match(subs: Seq<(Seq<char>, u8)>, topic: Seq<char>) -> Option<u8>
    decreases subs.len(),
{
    if subs.len() == 0 {
        None
    } else if filter_matches(subs[0].0, topic) {
        Some(subs[0].1)
    } else {
        first_match(subs.skip(1), topic)
    }
}

/// A stored session after a message was published: the message is kept if a
/// subscription matches and there is room.
pub open spec fn offline_session(
    s: SessionModel,
    topic: Seq<char>,
    payload: Seq<u8>,
    qos: u8,
) -> SessionModel {
    match first_match(s.subs, topic) {
        Some(sqos) if s.offline.len() < OFFLINE_CAP => SessionModel {
            offline: s.offline.push((topic, payload, min_qos(qos, sqos))),
            ..s
        },
        _ => s,
    }
}

pub open spec fn offline_sessions(
    sessions: Seq<(Seq<char>, SessionModel)>,
    topic: Seq<char>,
    payload: Seq<u8>,
    qos: u8,
) -> Seq<(Seq<char>, SessionModel)> {
    sessions.map_values(
        |e: (Seq<char>, SessionModel)| (e.0, offline_session(e.1, topic, payload, qos)),
    )
}

/// A QoS 1 or 2 message is also kept in the sessions that are still to be
/// stored.
pub open spec fn offline_leaving(
    leaving: Seq<DepartureModel>,
    topic: Seq<char>,
    payload: Seq<u8>,
    qos: u8,
) -> Seq<DepartureModel> {
    leaving.map_values(
        |d: DepartureModel|
            if d.keep {
                DepartureModel { session: offline_session(d.session, topic, payload, qos), ..d }
            } else {
                d
            },
    )
}

/// The session stored under `cid`.
pub open spec fn session_of(sessions: Seq<(Seq<char>, SessionModel)>, cid: Seq<char>) -> Option<
    SessionModel,
> {
    let i = position(sessions, cid) as int;
    if i < sessions.len() {
        Some(sessions[i].1)
    } else {
        None
    }
}

/// The sessions without the one stored under `cid`.
pub open spec fn without_session(
    sessions: Seq<(Seq<char>, SessionModel)>,
    cid: Seq<char>,
) -> Seq<(Seq<char>, SessionModel)> {
    let i = position(sessions, cid) as int;
    if i < sessions.len() {
        sessions.remove(i)
    } else {
        sessions
    }
}

/// The sessions with `s` stored under `cid`.
pub open spec fn with_session(
    sessions: Seq<(Seq<char>, SessionModel)>,
    cid: Seq<char>,
    s: SessionModel,
) -> Seq<(Seq<char>, SessionModel)> {
    let i = position(sessions, cid) as int;
    if i < sessions.len() {
        sessions.update(i, (cid, s))
    } else {
        sessions.push((cid, s))
    }
}

/// `base` with each entry of `new` added that is not there yet.
pub open spec fn merge_subs(base: Seq<(Seq<char>, u8)>, new: Seq<(Seq<char>, u8)>) -> Seq<
    (Seq<char>, u8),
>
    decreases new.len(),
{
    if new.len() == 0 {
        base
    } else {
        let b = merge_subs(base, new.drop_last());
        if b.contains(new.last()) {
            b
        } else {
            b.push(new.last())
        }
    }
}

/// `base` followed by as much of `new` as `OFFLINE_CAP` allows.
pub open spec fn append_capped<T>(base: Seq<T>, new: Seq<T>) -> Seq<T> {
    if base.len() >= OFFLINE_CAP {
        base
    } else if base.len() + new.len() <= OFFLINE_CAP {
        base + new
    } else {
        base + new.take(OFFLINE_CAP - base.len())
    }
}

/// The message (topic, payload, QoS) that a queued PUBLISH carries; `None` for
/// any other packet.
pub open spec fn message_in(pkt: Seq<u8>) -> Option<(Seq<char>, Seq<u8>, u8)> {
    if pkt.len() == 0 || pkt[0] >> 4u8 != PUBLISH {
        None
    } else {
        match rem_at(pkt.skip(1), 4) {
            None => None,
            Some((_, n)) => match publish_of(pkt[0] & 0x0f, pkt.skip(1 + n as int)) {
                None => None,
                Some((topic, qos, _, payload, _)) => Some((topic, payload, qos)),
            },
        }
    }
}

/// The messages among the reliable packets of a queue.
pub open spec fn queued_messages(q: Seq<(bool, Seq<u8>)>) -> Seq<(Seq<char>, Seq<u8>, u8)>
    decreases q.len(),
{
    if q.len() == 0 {
        Seq::empty()
    } else {
        let before = queued_messages(q.drop_last());
        match message_in(q.last().1) {
            Some(msg) if q.last().0 => before.push(msg),
            _ => before,
        }
    }
}

/// The (filter, QoS) pairs of the subscriptions of `token`.
pub open spec fn subs_of(subs: Seq<SubModel>, token: usize) -> Seq<(Seq<char>, u8)>
    decreases subs.len(),
{
    if subs.len() == 0 {
        Seq::empty()
    } else {
        let before = subs_of(subs.drop_last(), token);
        if subs.last().token == token {
            before.push((subs.last().filter, subs.last().qos))
        } else {
            before
        }
    }
}

/// What is stored under `cid` once `s` is added to it.
pub open spec fn merged_session(
    sessions: Seq<(Seq<char>, SessionModel)>,
    cid: Seq<char>,
    s: SessionModel,
) -> SessionModel {
    let before = match session_of(sessions, cid) {
        Some(stored) => stored,
        None => SessionModel { subs: Seq::empty(), offline: Seq::empty() },
    };
    SessionModel {
        subs: merge_subs(before.subs, s.subs),
        offline: append_capped(before.offline, s.offline),
    }
}

/// The session stored for a leaving client: what it takes along, added to what
/// was stored before.
pub open spec fn saved_session(m: BrokerModel, token: usize) -> SessionModel {
    merged_session(m.sessions, m.clients[token].client_id, taken_along(m, token))
}

// ---- publishing and leaving ----

/// A message is published: retained if so flagged, forwarded to every matching
/// subscription at the lower of the two QoS, and kept for absent clients.
/// Gives the numbers of deliveries and of drops too.
pub open spec fn publish(
    m: BrokerModel,
    topic: Seq<char>,
    payload: Seq<u8>,
    qos: u8,
    retain: bool,
    now: u64,
) -> (BrokerModel, nat, nat) {
    let m1 = if retain {
        BrokerModel { retained: retain_message(m.retained, topic, payload, qos), ..m }
    } else {
        m
    };
    let (m2, delivered, dropped, dead) = fan_out(m1, 0, topic, payload, qos, now);
    let m3 = BrokerModel { dead_pruned: count(m2.dead_pruned, dead), ..m2 };
    let m4 = if qos > 0 {
        BrokerModel {
            sessions: offline_sessions(m3.sessions, topic, payload, qos),
            leaving: offline_leaving(m3.leaving, topic, payload, qos),
            ..m3
        }
    } else {
        m3
    };
    (m4, delivered, dropped)
}

/// The last will of a client is published, if it has one.
pub open spec fn publish_will(m: BrokerModel, token: usize, now: u64) -> BrokerModel {
    if m.clients.contains_key(token) && m.clients[token].will_flag {
        let c = m.clients[token];
        publish(m, c.will_topic, c.will_message, c.will_qos, c.will_retain, now).0
    } else {
        m
    }
}

/// A client that wants its session kept.
pub open spec fn persistent(c: ClientModel) -> bool {
    !c.clean_session && c.client_id.len() > 0
}

/// The subscriptions of clients other than `token`.
pub open spec fn other_subs(subs: Seq<SubModel>, token: usize) -> Seq<SubModel> {
    subs.filter(|s: SubModel| s.token != token)
}

/// The departures, with the will of client `token` no longer to be published.
pub open spec fn will_done(leaving: Seq<DepartureModel>, token: usize) -> Seq<DepartureModel> {
    leaving.map_values(
        |d: DepartureModel|
            if d.token == token {
                DepartureModel { will_flag: false, ..d }
            } else {
                d
            },
    )
}

/// The departures, with the session of client `token` no longer to be stored.
pub open spec fn session_done(leaving: Seq<DepartureModel>, token: usize) -> Seq<DepartureModel> {
    leaving.map_values(
        |d: DepartureModel|
            if d.token == token {
                DepartureModel { keep: false, ..d }
            } else {
                d
            },
    )
}

/// A client leaves: its will is published unless it said goodbye, its session
/// is stored if it wants that, and it is forgotten with its subscriptions.
pub open spec fn remove(m: BrokerModel, token: usize, now: u64) -> BrokerModel {
    let m1 = if !m.clients.contains_key(token) || m.clients[token].clean_disconnect {
        m
    } else {
        BrokerModel {
            leaving: will_done(publish_will(m, token, now).leaving, token),
            ..publish_will(m, token, now)
        }
    };
    let m2 = if m1.clients.contains_key(token) && persistent(m1.clients[token]) {
        BrokerModel {
            sessions: with_session(
                m1.sessions,
                m1.clients[token].client_id,
                saved_session(m1, token),
            ),
            ..m1
        }
    } else {
        m1
    };
    BrokerModel {
        subs: other_subs(m2.subs, token),
        clients: m2.clients.remove(token),
        ..m2
    }
}

/// The first departure is seen to: the session is stored, the subscriptions are
/// taken out, and the will is published.
pub open spec fn settle_one(m: BrokerModel, now: u64) -> BrokerModel {
    let d = m.leaving[0];
    let m1 = BrokerModel {
        leaving: m.leaving.skip(1),
        subs: other_subs(m.subs, d.token),
        sessions: if d.keep {
            with_session(
                m.sessions,
                d.client_id,
                merged_session(m.sessions, d.client_id, d.session),
            )
        } else {
            m.sessions
        },
        ..m
    };
    if d.will_flag {
        publish(m1, d.will.0, d.will.1, d.will.2, d.will.3, now).0
    } else {
        m1
    }
}

/// Up to `n` departures are seen to.
pub open spec fn settle_some(m: BrokerModel, n: nat, now: u64) -> BrokerModel
    decreases n,
{
    if n == 0 || m.leaving.len() == 0 {
        m
    } else {
        settle_some(settle_one(m, now), (n - 1) as nat, now)
    }
}

/// The most departures there can be, with those that published wills bring
/// about.
pub open spec fn departures(m: BrokerModel) -> nat {
    m.clients.dom().len() + m.leaving.len()
}

/// All departures are seen to, and those that the wills bring about.
pub open spec fn settle(m: BrokerModel, now: u64) -> BrokerModel {
    settle_some(m, departures(m), now)
}

// ---- packets ----

/// The stored messages `queued` are sent to a client that came back, each at
/// no more than the QoS of the first of `subs` that matches it; `false` if the
/// client was too slow.
pub open spec fn flush_offline(
    m: BrokerModel,
    token: usize,
    subs: Seq<(Seq<char>, u8)>,
    queued: Seq<(Seq<char>, Seq<u8>, u8)>,
    now: u64,
) -> (BrokerModel, bool)
    decreases queued.len(),
{
    if queued.len() == 0 {
        (m, true)
    } else {
        let (topic, payload, q) = queued[0];
        let qos = match first_match(subs, topic) {
            Some(s) => min_qos(q, s),
            None => q,
        };
        let (m2, d) = deliver(m, token, topic, payload, qos, false, now);
        if d is Gone {
            (m2, false)
        } else {
            flush_offline(m2, token, subs, queued.skip(1), now)
        }
    }
}

/// The subscriptions of a stored session, now held by `token`.
pub open spec fn restored(subs: Seq<(Seq<char>, u8)>, token: usize) -> Seq<SubModel> {
    subs.map_values(|e: (Seq<char>, u8)| SubModel { filter: e.0, token, qos: e.1 })
}

/// The deadline of a client with the given keepalive: one and a half times as
/// many seconds from now; none for zero.
pub open spec fn deadline(keepalive: u16, now: u64) -> Option<u64> {
    if keepalive > 0 {
        Some((now + (keepalive * 3 / 2) * SECOND) as u64)
    } else {
        None
    }
}

/// The client after a CONNECT with these fields.
pub open spec fn connected_client(
    c: ClientModel,
    f: (Seq<char>, u16, bool, u8, bool, Seq<char>, Seq<u8>, bool),
    now: u64,
) -> ClientModel {
    with_qos0(
        ClientModel {
            client_id: f.0,
            keepalive: f.1,
            keepalive_deadline: deadline(f.1, now),
            will_flag: f.2,
            will_qos: f.3,
            will_retain: f.4,
            will_topic: f.5,
            will_message: f.6,
            clean_session: f.7,
            ..c
        },
        seq![0x20u8, 0x02, 0x00, 0x00],
    )
}

/// CONNECT: the client takes its name, keepalive and will and is answered. A
/// clean session forgets what was stored under that name; otherwise the stored
/// subscriptions are taken up again and the stored messages sent. Where the
/// client is too slow to take them, the session stays stored as it is.
pub open spec fn on_connect(
    m: BrokerModel,
    token: usize,
    f: (Seq<char>, u16, bool, u8, bool, Seq<char>, Seq<u8>, bool),
    now: u64,
) -> (BrokerModel, Result<(), PacketError>) {
    if !m.clients.contains_key(token) {
        (m, Err(PacketError::ClientGone))
    } else {
        let c = connected_client(m.clients[token], f, now);
        if f.7 {
            (
                BrokerModel {
                    sessions: without_session(m.sessions, f.0),
                    sys_clients_total: count(m.sys_clients_total, 1),
                    ..put_client(m, token, c)
                },
                Ok(()),
            )
        } else {
            match session_of(m.sessions, f.0) {
                None => (
                    BrokerModel {
                        sys_clients_total: count(m.sys_clients_total, 1),
                        ..put_client(m, token, c)
                    },
                    Ok(()),
                ),
                Some(s) => {
                    let m1 = BrokerModel {
                        subs: m.subs + restored(s.subs, token),
                        ..put_client(m, token, c)
                    };
                    let (m2, done) = flush_offline(m1, token, s.subs, s.offline, now);
                    if !done {
                        (
                            BrokerModel { leaving: session_done(m2.leaving, token), ..m2 },
                            Err(PacketError::DroppedInFlush),
                        )
                    } else {
                        (
                            BrokerModel {
                                sessions: without_session(m2.sessions, f.0),
                                sys_clients_total: count(m2.sys_clients_total, 1),
                                ..m2
                            },
                            Ok(()),
                        )
                    }
                },
            }
        }
    }
}

/// Those of `stored` that match `filter` are sent to a new subscriber, at the
/// lower of the two QoS and with the retain flag; `false` if it was too slow.
pub open spec fn deliver_retained(
    m: BrokerModel,
    token: usize,
    filter: Seq<char>,
    qos: u8,
    stored: Seq<(Seq<char>, Seq<u8>, u8)>,
    now: u64,
) -> (BrokerModel, bool)
    decreases stored.len(),
{
    if stored.len() == 0 {
        (m, true)
    } else if !filter_matches(filter, stored[0].0) {
        deliver_retained(m, token, filter, qos, stored.skip(1), now)
    } else {
        let (m2, d) = deliver(
            m,
            token,
            stored[0].0,
            stored[0].1,
            min_qos(stored[0].2, qos),
            true,
            now,
        );
        if d is Gone {
            (m2, false)
        } else {
            deliver_retained(m2, token, filter, qos, stored.skip(1), now)
        }
    }
}

/// Each filter becomes a subscription and is sent what is retained for it.
pub open spec fn subscribe_all(
    m: BrokerModel,
    token: usize,
    topics: Seq<(Seq<char>, u8)>,
    now: u64,
) -> (BrokerModel, bool)
    decreases topics.len(),
{
    if topics.len() == 0 {
        (m, true)
    } else {
        let (filter, qos) = topics[0];
        let m1 = BrokerModel { subs: m.subs.push(SubModel { filter, token, qos }), ..m };
        let (m2, done) = deliver_retained(m1, token, filter, qos, m1.retained, now);
        if !done {
            (m2, false)
        } else {
            subscribe_all(m2, token, topics.skip(1), now)
        }
    }
}

/// The QoS granted to each filter: the one asked for.
pub open spec fn grants(topics: Seq<(Seq<char>, u8)>) -> Seq<u8> {
    topics.map_values(|e: (Seq<char>, u8)| e.1)
}

/// The broker after `pkt` was queued for client `token`.
pub open spec fn reply(m: BrokerModel, token: usize, pkt: Seq<u8>) -> BrokerModel {
    put_client(m, token, with_qos0(m.clients[token], pkt))
}

/// SUBSCRIBE.
pub open spec fn on_subscribe(
    m: BrokerModel,
    token: usize,
    pid: u16,
    topics: Seq<(Seq<char>, u8)>,
    now: u64,
) -> (BrokerModel, Result<(), PacketError>) {
    let (m2, done) = subscribe_all(m, token, topics, now);
    if !done {
        (m2, Err(PacketError::DroppedInRetained))
    } else if !m2.clients.contains_key(token) {
        (m2, Err(PacketError::ClientGone))
    } else {
        (reply(m2, token, framed(0x90, be16(pid) + grants(topics))), Ok(()))
    }
}

/// The subscriptions that are left when `token` gives up `filters`.
pub open spec fn subs_without(
    subs: Seq<SubModel>,
    token: usize,
    filters: Seq<Seq<char>>,
) -> Seq<SubModel> {
    subs.filter(|s: SubModel| !(s.token == token && filters.contains(s.filter)))
}

/// UNSUBSCRIBE.
pub open spec fn on_unsubscribe(
    m: BrokerModel,
    token: usize,
    pid: u16,
    filters: Seq<Seq<char>>,
) -> (BrokerModel, Result<(), PacketError>) {
    let m2 = BrokerModel { subs: subs_without(m.subs, token, filters), ..m };
    if !m2.clients.contains_key(token) {
        (m2, Err(PacketError::ClientGone))
    } else {
        (reply(m2, token, id_packet(0xB0, pid)), Ok(()))
    }
}

/// A message from a client is passed on and counted.
pub open spec fn publish_received(
    m: BrokerModel,
    topic: Seq<char>,
    payload: Seq<u8>,
    qos: u8,
    retain: bool,
    now: u64,
) -> BrokerModel {
    let m2 = publish(m, topic, payload, qos, retain, now).0;
    BrokerModel { sys_pub_received: count(m2.sys_pub_received, 1), dead_pruned: 0, ..m2 }
}

/// PUBLISH: QoS 1 is acknowledged with PUBACK and passed on. QoS 2 is
/// acknowledged with PUBREC, and passed on only if its packet id is not one
/// whose release is still awaited.
pub open spec fn on_publish(
    m: BrokerModel,
    token: usize,
    f: (Seq<char>, u8, Option<u16>, Seq<u8>, bool),
    now: u64,
) -> (BrokerModel, Result<(), PacketError>) {
    let (topic, qos, pid, payload, retain) = f;
    match pid {
        Some(p) if qos == 1 => if !m.clients.contains_key(token) {
            (m, Err(PacketError::ClientGone))
        } else {
            let m1 = reply(m, token, id_packet(0x40, p));
            (publish_received(m1, topic, payload, qos, retain, now), Ok(()))
        },
        Some(p) if qos == 2 => if !m.clients.contains_key(token) {
            (m, Err(PacketError::ClientGone))
        } else {
            let c = m.clients[token];
            let c1 = ClientModel { received_qos2: c.received_qos2.insert(p), ..c };
            let m1 = put_client(m, token, with_qos0(c1, id_packet(0x50, p)));
            if c.received_qos2.contains(p) {
                (m1, Ok(()))
            } else {
                (publish_received(m1, topic, payload, qos, retain, now), Ok(()))
            }
        },
        _ => (publish_received(m, topic, payload, qos, retain, now), Ok(())),
    }
}

/// PUBACK and PUBCOMP: the message is no longer in flight.
pub open spec fn on_ack(m: BrokerModel, token: usize, pid: u16) -> (
    BrokerModel,
    Result<(), PacketError>,
) {
    if !m.clients.contains_key(token) {
        (m, Err(PacketError::ClientGone))
    } else {
        let c = m.clients[token];
        (
            put_client(m, token, ClientModel { in_flight: c.in_flight.remove(pid), ..c }),
            Ok(()),
        )
    }
}

/// PUBREC: a QoS 2 message that awaits it is released with PUBREL.
pub open spec fn on_pubrec(m: BrokerModel, token: usize, pid: u16, now: u64) -> (
    BrokerModel,
    Result<(), PacketError>,
) {
    if !m.clients.contains_key(token) {
        (m, Err(PacketError::ClientGone))
    } else {
        let c = m.clients[token];
        if c.in_flight.contains_key(pid) && c.in_flight[pid].qos2
            && !c.in_flight[pid].await_pubcomp {
            let entry = InFlightModel {
                await_pubcomp: true,
                sent_at: now,
                retries: 0,
                ..c.in_flight[pid]
            };
            let c1 = ClientModel { in_flight: c.in_flight.insert(pid, entry), ..c };
            (put_client(m, token, with_qos0(c1, id_packet(0x62, pid))), Ok(()))
        } else {
            (m, Ok(()))
        }
    }
}

/// PUBREL: the packet id may be used again, and is answered with PUBCOMP.
pub open spec fn on_pubrel(m: BrokerModel, token: usize, pid: u16) -> (
    BrokerModel,
    Result<(), PacketError>,
) {
    if !m.clients.contains_key(token) {
        (m, Err(PacketError::ClientGone))
    } else {
        let c = m.clients[token];
        let c1 = ClientModel { received_qos2: c.received_qos2.remove(pid), ..c };
        (put_client(m, token, with_qos0(c1, id_packet(0x70, pid))), Ok(()))
    }
}

/// PINGREQ.
pub open spec fn on_pingreq(m: BrokerModel, token: usize) -> (
    BrokerModel,
    Result<(), PacketError>,
) {
    if !m.clients.contains_key(token) {
        (m, Err(PacketError::ClientGone))
    } else {
        (reply(m, token, seq![0xD0u8, 0x00]), Ok(()))
    }
}

/// DISCONNECT: the client has said goodbye, and the connection is closed.
pub open spec fn on_disconnect(m: BrokerModel, token: usize) -> (
    BrokerModel,
    Result<(), PacketError>,
) {
    if !m.clients.contains_key(token) {
        (m, Err(PacketError::ClientGone))
    } else {
        let c = ClientModel { clean_disconnect: true, ..m.clients[token] };
        (put_client(m, token, c), Err(PacketError::Disconnect))
    }
}

/// Client `token` was heard of: its keepalive starts anew.
pub open spec fn heard(m: BrokerModel, token: usize, now: u64) -> BrokerModel {
    if m.clients.contains_key(token) {
        let c = m.clients[token];
        put_client(
            m,
            token,
            ClientModel { keepalive_deadline: deadline(c.keepalive, now), ..c },
        )
    } else {
        m
    }
}

/// One packet (type, flags, body) from client `token`, which is thereby heard
/// of.
pub open spec fn on_packet(
    m: BrokerModel,
    token: usize,
    pkt: (u8, u8, Seq<u8>),
    now: u64,
) -> (BrokerModel, Result<(), PacketError>) {
    on_content(heard(m, token, now), token, pkt, now)
}

/// What a packet (type, flags, body) from client `token` asks for.
pub open spec fn on_content(
    m: BrokerModel,
    token: usize,
    pkt: (u8, u8, Seq<u8>),
    now: u64,
) -> (BrokerModel, Result<(), PacketError>) {
    let (ptype, flags, body) = pkt;
    if ptype == CONNECT {
        match connect_of(body) {
            Some(f) => on_connect(m, token, f, now),
            None => (m, Err(PacketError::BadConnect)),
        }
    } else if ptype == SUBSCRIBE {
        match subscribe_of(body) {
            Some((pid, topics)) => on_subscribe(m, token, pid, topics, now),
            None => (m, Err(PacketError::BadSubscribe)),
        }
    } else if ptype == UNSUBSCRIBE {
        match unsubscribe_of(body) {
            Some((pid, filters)) => on_unsubscribe(m, token, pid, filters),
            None => (m, Err(PacketError::BadUnsubscribe)),
        }
    } else if ptype == PUBLISH {
        match publish_of(flags, body) {
            Some(f) => on_publish(m, token, f, now),
            None => (m, Err(PacketError::BadPublish)),
        }
    } else if ptype == PUBACK {
        if body.len() >= 2 {
            on_ack(m, token, be16_at(body, 0))
        } else {
            (m, Err(PacketError::BadPuback))
        }
    } else if ptype == PUBREC {
        if body.len() >= 2 {
            on_pubrec(m, token, be16_at(body, 0), now)
        } else {
            (m, Err(PacketError::BadPubrec))
        }
    } else if ptype == PUBREL {
        if body.len() >= 2 {
            on_pubrel(m, token, be16_at(body, 0))
        } else {
            (m, Err(PacketError::BadPubrel))
        }
    } else if ptype == PUBCOMP {
        if body.len() >= 2 {
            on_ack(m, token, be16_at(body, 0))
        } else {
            (m, Err(PacketError::BadPubcomp))
        }
    } else if ptype == PINGREQ {
        on_pingreq(m, token)
    } else if ptype == DISCONNECT {
        on_disconnect(m, token)
    } else {
        (m, Err(PacketError::Unknown(ptype)))
    }
}

/// Packets from client `token`, one after the other, up to the first error.
pub open spec fn on_packets(
    m: BrokerModel,
    token: usize,
    pkts: Seq<(u8, u8, Seq<u8>)>,
    now: u64,
) -> (BrokerModel, Result<(), PacketError>)
    decreases pkts.len(),
{
    if pkts.len() == 0 {
        (m, Ok(()))
    } else {
        let (m2, r) = on_packet(m, token, pkts[0], now);
        match r {
            Ok(()) => on_packets(m2, token, pkts.skip(1), now),
            Err(e) => (m2, Err(e)),
        }
    }
}

/// All whole packets in the read buffer of client `token` are taken out of it
/// and handled. If one of them is refused for its length, everything is left as
/// it is.
pub open spec fn on_buffer(m: BrokerModel, token: usize, now: u64) -> (
    BrokerModel,
    Result<(), PacketError>,
) {
    let c = m.clients[token];
    match packets_of(c.read_buf) {
        Err(FrameError::TooLarge(rem)) => (m, Err(PacketError::TooLarge(rem))),
        Err(FrameError::BadLength) => (m, Err(PacketError::BadLength)),
        Ok((pkts, used)) => {
            let c1 = ClientModel { read_buf: c.read_buf.skip(used as int), ..c };
            let (m2, r) = on_packets(put_client(m, token, c1), token, pkts, now);
            match r {
                Ok(()) => (
                    BrokerModel {
                        sys_msgs_received: count(m2.sys_msgs_received, pkts.len()),
                        ..m2
                    },
                    Ok(()),
                ),
                Err(e) => (m2, Err(e)),
            }
        },
    }
}

/// Bytes arrived from client `token`.
pub open spec fn on_bytes(m: BrokerModel, token: usize, data: Seq<u8>, now: u64) -> (
    BrokerModel,
    bool,
) {
    let c = m.clients[token];
    let c1 = ClientModel { read_buf: c.read_buf + data, ..c };
    let m1 = put_client(m, token, c1);
    if c1.read_buf.len() > READ_CAP {
        (m1, false)
    } else {
        let (m2, r) = on_buffer(m1, token, now);
        (m2, r is Ok)
    }
}

/// A read from client `token`: it is removed if the connection is to be closed,
/// and all departures are seen to.
pub open spec fn on_read(m: BrokerModel, token: usize, read: ReadOutcome, now: u64) -> (
    BrokerModel,
    bool,
) {
    let (m2, open) = served(m, token, read, now);
    (settle(m2, now), open)
}

/// A read from client `token`, with the departures it brings about still open.
pub open spec fn served(m: BrokerModel, token: usize, read: ReadOutcome, now: u64) -> (
    BrokerModel,
    bool,
) {
    match read {
        ReadOutcome::Data(data) => {
            let (m2, open) = on_bytes(m, token, data@, now);
            if open {
                (m2, true)
            } else {
                (remove(m2, token, now), false)
            }
        },
        ReadOutcome::WouldBlock => (m, true),
        ReadOutcome::Eof | ReadOutcome::Failed => (remove(m, token, now), false),
    }
}

// ---- writing ----

/// Packets from the front of a queue joined behind `batch` until that holds
/// `BATCH_MAX` bytes; the positions in the batch where they end, behind `ends`;
/// and the packets left over.
pub open spec fn fill_batch(batch: Seq<u8>, ends: Seq<nat>, q: Seq<(bool, Seq<u8>)>) -> (
    Seq<u8>,
    Seq<nat>,
    Seq<(bool, Seq<u8>)>,
)
    decreases q.len(),
{
    if batch.len() >= BATCH_MAX || q.len() == 0 {
        (batch, ends, q)
    } else {
        let joined = batch + q[0].1;
        fill_batch(joined, ends.push(joined.len()), q.skip(1))
    }
}

/// The number of packets that end at or before `off`.
pub open spec fn ended(ends: Seq<nat>, off: usize) -> nat
    decreases ends.len(),
{
    if ends.len() == 0 || ends[0] > off {
        0
    } else {
        1 + ended(ends.skip(1), off)
    }
}

/// What is still to be written of the current batch.
pub open spec fn unwritten(c: ClientModel) -> Seq<u8> {
    if c.write_off <= c.write_pending.len() {
        c.write_pending.skip(c.write_off as int)
    } else {
        Seq::empty()
    }
}

/// What the last write to a connection did.
pub enum WriteOutcome {
    /// Nothing has been written yet.
    Start,
    /// That many bytes were taken.
    Wrote(usize),
    /// No byte was taken.
    Zero,
    WouldBlock,
    Failed,
}

/// What to do next on a connection.
pub enum FlushAction {
    /// Write what is unwritten of the current batch.
    Write,
    /// Wait until the connection is readable or, if so told, writable.
    Wait { writable: bool },
    /// The client is removed.
    Closed,
}

/// The client after `n` more bytes of its batch were written: with a new batch
/// if the old one is done and packets are queued. Also the number of packets
/// whose last byte was among those `n`, and whether there is anything left to
/// write.
pub open spec fn after_write(c: ClientModel, n: usize) -> (ClientModel, nat, bool) {
    let off = (c.write_off + n) as usize;
    let k = ended(c.write_ends, off);
    let c1 = ClientModel { write_off: off, write_ends: c.write_ends.skip(k as int), ..c };
    if off < c.write_pending.len() {
        (c1, k, true)
    } else if c.write_queue.len() == 0 {
        (c1, k, false)
    } else {
        let (batch, ends, rest) = fill_batch(Seq::empty(), Seq::empty(), c.write_queue);
        (
            ClientModel {
                write_pending: batch,
                write_off: 0,
                write_ends: ends,
                write_queue: rest,
                ..c1
            },
            k,
            true,
        )
    }
}

/// Client `token` took `n` more bytes: the packets that are thereby written are
/// counted.
pub open spec fn on_written(m: BrokerModel, token: usize, n: usize) -> (BrokerModel, FlushAction) {
    let (c, k, more) = after_write(m.clients[token], n);
    (
        BrokerModel { sys_msgs_sent: count(m.sys_msgs_sent, k), ..put_client(m, token, c) },
        if more {
            FlushAction::Write
        } else {
            FlushAction::Wait { writable: false }
        },
    )
}

/// One step of flushing the queue of client `token`.
pub open spec fn on_write(m: BrokerModel, token: usize, last: WriteOutcome, now: u64) -> (
    BrokerModel,
    FlushAction,
) {
    match last {
        WriteOutcome::Failed => (remove(m, token, now), FlushAction::Closed),
        WriteOutcome::Zero | WriteOutcome::WouldBlock => (m, FlushAction::Wait { writable: true }),
        WriteOutcome::Start => on_written(m, token, 0),
        WriteOutcome::Wrote(n) => on_written(m, token, n),
    }
}

// ---- sweeps ----

/// The time from `then` to `now`; zero if that is in the future.
pub open spec fn elapsed(now: u64, then: u64) -> u64 {
    if now >= then {
        (now - then) as u64
    } else {
        0
    }
}

/// The connected clients, in the order in which they came.
pub open spec fn tokens(m: BrokerModel) -> Seq<usize> {
    sorted_tokens(m.clients.dom())
}

/// A client whose keepalive deadline has passed.
pub open spec fn is_expired(c: ClientModel, now: u64) -> bool {
    c.keepalive_deadline matches Some(d) && now > d
}

/// The clients whose keepalive deadline has passed.
pub open spec fn expired(m: BrokerModel, now: u64) -> Seq<usize> {
    tokens(m).filter(|t: usize| is_expired(m.clients[t], now))
}

/// A client for which packets are queued, or of whose last batch a part is
/// still to be written.
pub open spec fn has_unsent(c: ClientModel) -> bool {
    c.write_queue.len() > 0 || unwritten(c).len() > 0
}

/// The clients that there is something to write for.
pub open spec fn waiting(m: BrokerModel) -> Seq<usize> {
    tokens(m).filter(|t: usize| has_unsent(m.clients[t]))
}

/// Clients are removed one after the other.
pub open spec fn remove_all(m: BrokerModel, gone: Seq<usize>, now: u64) -> BrokerModel
    decreases gone.len(),
{
    if gone.len() == 0 {
        m
    } else {
        remove_all(remove(m, gone[0], now), gone.skip(1), now)
    }
}

/// A packet with the DUP flag set in its first byte.
pub open spec fn with_dup(pkt: Seq<u8>) -> Seq<u8> {
    if pkt.len() == 0 {
        pkt
    } else {
        pkt.update(0, pkt[0] | 0x08)
    }
}

/// What is sent again for an unanswered message: the PUBREL if the PUBCOMP is
/// awaited, otherwise the PUBLISH; marked as a duplicate either way.
pub open spec fn retry_packet(f: InFlightModel, pid: u16) -> Seq<u8> {
    if f.qos2 && f.await_pubcomp {
        with_dup(id_packet(0x62, pid))
    } else {
        with_dup(f.pkt)
    }
}

/// An unanswered message that was sent at least `retry_ms` milliseconds ago.
pub open spec fn is_due(f: InFlightModel, now: u64, retry_ms: u64) -> bool {
    elapsed(now, f.sent_at) >= retry_ms * 1000000
}

/// The messages among `pids` that are to be sent again to client `token`.
pub open spec fn client_retries(
    c: ClientModel,
    token: usize,
    pids: Seq<u16>,
    now: u64,
    retry_ms: u64,
) -> Seq<(usize, u16, Seq<u8>)>
    decreases pids.len(),
{
    if pids.len() == 0 {
        Seq::empty()
    } else {
        let before = client_retries(c, token, pids.drop_last(), now, retry_ms);
        let pid = pids.last();
        let f = c.in_flight[pid];
        if is_due(f, now, retry_ms) && f.retries < QOS1_MAX_RETRIES {
            before.push((token, pid, retry_packet(f, pid)))
        } else {
            before
        }
    }
}

/// Those of `list` that are to be sent again, client by client.
pub open spec fn retries(m: BrokerModel, list: Seq<usize>, now: u64, retry_ms: u64) -> Seq<
    (usize, u16, Seq<u8>),
>
    decreases list.len(),
{
    if list.len() == 0 {
        Seq::empty()
    } else {
        let c = m.clients[list.last()];
        retries(m, list.drop_last(), now, retry_ms) + client_retries(
            c,
            list.last(),
            sorted_pids(c.in_flight.dom()),
            now,
            retry_ms,
        )
    }
}

/// A client one of whose messages was sent too often without an answer.
pub open spec fn is_given_up(c: ClientModel, now: u64, retry_ms: u64) -> bool {
    exists|pid: u16|
        #![trigger c.in_flight[pid]]
        c.in_flight.contains_key(pid) && is_due(c.in_flight[pid], now, retry_ms)
            && c.in_flight[pid].retries >= QOS1_MAX_RETRIES
}

/// The clients that are given up.
pub open spec fn given_up(m: BrokerModel, now: u64, retry_ms: u64) -> Seq<usize> {
    tokens(m).filter(|t: usize| is_given_up(m.clients[t], now, retry_ms))
}

/// The client after one of its messages was queued again, with its timer and
/// count renewed; `None` if the queue cannot take it.
pub open spec fn resent(c: ClientModel, pid: u16, pkt: Seq<u8>, now: u64) -> Option<ClientModel> {
    let q = make_room(c.write_queue);
    if q.len() >= WRITE_QUEUE_CAP {
        None
    } else if c.in_flight.contains_key(pid) {
        let f = c.in_flight[pid];
        let renewed = InFlightModel {
            sent_at: now,
            retries: ((f.retries + 1) % 0x1_0000_0000) as u32,
            ..f
        };
        Some(
            ClientModel {
                write_queue: q.push((true, pkt)),
                in_flight: c.in_flight.insert(pid, renewed),
                ..c
            },
        )
    } else {
        Some(ClientModel { write_queue: q.push((true, pkt)), ..c })
    }
}

/// One message is queued again. A client whose queue cannot take it is
/// removed.
pub open spec fn resend(
    m: BrokerModel,
    token: usize,
    pid: u16,
    pkt: Seq<u8>,
    now: u64,
) -> BrokerModel {
    if !m.clients.contains_key(token) {
        m
    } else {
        let c = m.clients[token];
        match resent(c, pid, pkt, now) {
            Some(c2) => put_client(m, token, c2),
            None => {
                let full = ClientModel { write_queue: make_room(c.write_queue), ..c };
                remove(put_client(m, token, full), token, now)
            },
        }
    }
}

/// Messages are queued again one after the other.
pub open spec fn resend_all(m: BrokerModel, list: Seq<(usize, u16, Seq<u8>)>, now: u64) -> BrokerModel
    decreases list.len(),
{
    if list.len() == 0 {
        m
    } else {
        resend_all(resend(m, list[0].0, list[0].1, list[0].2, now), list.skip(1), now)
    }
}

/// Those of `list` that are still connected are removed.
pub open spec fn remove_present(m: BrokerModel, list: Seq<usize>, now: u64) -> BrokerModel
    decreases list.len(),
{
    if list.len() == 0 {
        m
    } else {
        let m2 = if m.clients.contains_key(list[0]) {
            remove(m, list[0], now)
        } else {
            m
        };
        remove_present(m2, list.skip(1), now)
    }
}

/// Every message without an answer for `retry_ms` milliseconds is sent again;
/// a client that left one unanswered `QOS1_MAX_RETRIES` times is removed.
pub open spec fn retransmit(m: BrokerModel, now: u64, retry_ms: u64) -> BrokerModel {
    let m2 = resend_all(m, retries(m, tokens(m), now, retry_ms), now);
    remove_present(m2, given_up(m, now, retry_ms), now)
}

// ---- statistics ----

/// The decimal digits of `n`, as ASCII.
pub open spec fn decimal(n: nat) -> Seq<u8>
    decreases n,
{
    if n < 10 {
        seq![(48 + n) as u8]
    } else {
        decimal(n / 10).push((48 + n % 10) as u8)
    }
}

/// The statistics topics and what is published on them.
pub open spec fn sys_messages(m: BrokerModel, version: Seq<char>, now: u64) -> Seq<
    (Seq<char>, Seq<u8>),
> {
    seq![
        ("$SYS/broker/version"@, encode_utf8("mqtt-broker-rs "@ + version)),
        ("$SYS/broker/uptime"@, decimal((elapsed(now, m.sys_start) / SECOND) as nat)),
        ("$SYS/broker/clients/connected"@, decimal(m.clients.dom().len())),
        ("$SYS/broker/clients/total"@, decimal(m.sys_clients_total as nat)),
        ("$SYS/broker/messages/received"@, decimal(m.sys_msgs_received as nat)),
        ("$SYS/broker/messages/sent"@, decimal(m.sys_msgs_sent as nat)),
        ("$SYS/broker/messages/publish/received"@, decimal(m.sys_pub_received as nat)),
        ("$SYS/broker/messages/publish/sent"@, decimal(m.sys_pub_sent as nat)),
        ("$SYS/broker/subscriptions/count"@, decimal(m.subs.len())),
    ]
}

/// Messages are published at QoS 0 and retained, one after the other.
pub open spec fn publish_all(m: BrokerModel, msgs: Seq<(Seq<char>, Seq<u8>)>, now: u64) -> BrokerModel
    decreases msgs.len(),
{
    if msgs.len() == 0 {
        m
    } else {
        publish_all(publish(m, msgs[0].0, msgs[0].1, 0, true, now).0, msgs.skip(1), now)
    }
}

/// The statistics are published.
pub open spec fn publish_sys(m: BrokerModel, version: Seq<char>, now: u64) -> BrokerModel {
    publish_all(m, sys_messages(m, version, now), now)
}

/// The statistics are published if that was last done `SYS_INTERVAL` ago.
pub open spec fn sys_tick(m: BrokerModel, version: Seq<char>, now: u64) -> BrokerModel {
    if elapsed(now, m.sys_last_publish) >= SYS_INTERVAL {
        BrokerModel { sys_last_publish: now, ..publish_sys(m, version, now) }
    } else {
        m
    }
}

/// What is done at the end of each round.
pub open spec fn tick(m: BrokerModel, version: Seq<char>, now: u64, retry_ms: u64) -> BrokerModel {
    let m1 = sys_tick(m, version, now);
    let m2 = remove_all(m1, expired(m1, now), now);
    settle(retransmit(m2, now, retry_ms), now)
}

} // verus!
