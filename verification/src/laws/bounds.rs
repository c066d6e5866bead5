//! Bounds: whatever clients do, no queue, window or store outgrows its limit,
//! and no topic or client id is stored twice.
use crate::frame::packets_of;
use crate::model;
use crate::model::{
    Accept, BrokerModel, ClientModel, Delivery, InFlightModel, ReadOutcome, SessionModel, SubModel,
    WriteOutcome, IN_FLIGHT_CAP, OFFLINE_CAP, READ_CAP, WRITE_QUEUE_CAP,
};
use crate::topic::filter_matches;
use crate::views::lemma_filter_has;
use vstd::prelude::*;

verus! {

/// The limits of one client.
pub open spec fn client_bounded(c: ClientModel) -> bool {
    &&& c.write_queue.len() <= WRITE_QUEUE_CAP
    &&& c.in_flight.dom().finite()
    &&& c.in_flight.dom().len() <= IN_FLIGHT_CAP
    &&& !c.in_flight.contains_key(0)
    &&& c.write_off <= c.write_pending.len()
    &&& forall|i: int|
        0 <= i < c.write_ends.len() ==> #[trigger] c.write_ends[i] <= c.write_pending.len()
}

/// No two entries have the same key.
pub open spec fn distinct_topics(s: Seq<(Seq<char>, Seq<u8>, u8)>) -> bool {
    forall|i: int, j: int| 0 <= i < j < s.len() ==> (#[trigger] s[i]).0 != (#[trigger] s[j]).0
}

/// No two sessions have the same client id.
pub open spec fn distinct_ids(s: Seq<(Seq<char>, SessionModel)>) -> bool {
    forall|i: int, j: int| 0 <= i < j < s.len() ==> (#[trigger] s[i]).0 != (#[trigger] s[j]).0
}

/// The limits of the broker.
pub open spec fn bounded(m: BrokerModel) -> bool {
    &&& m.clients.dom().finite()
    &&& forall|t: usize| #[trigger]
        m.clients.contains_key(t) ==> client_bounded(m.clients[t]) && m.clients[t].token == t && t
            < m.next_token
    &&& distinct_topics(m.retained)
    &&& forall|i: int| 0 <= i < m.retained.len() ==> (#[trigger] m.retained[i]).1.len() > 0
    &&& distinct_ids(m.sessions)
    &&& forall|i: int|
        0 <= i < m.sessions.len() ==> (#[trigger] m.sessions[i]).1.offline.len() <= OFFLINE_CAP
}

// ---- one client ----

pub proof fn lemma_make_room_len(q: Seq<(bool, Seq<u8>)>)
    ensures
        model::make_room(q).len() <= q.len(),
    decreases q.len(),
{
    let i = model::first_droppable(q) as int;
    if !(q.len() < WRITE_QUEUE_CAP || i >= q.len()) {
        lemma_make_room_len(q.remove(i));
    }
}

proof fn lemma_pid_range(used: Set<u16>, start: u16)
    ensures
        model::free_pid(used, start) >= 1,
{
}

pub proof fn lemma_accept_bounded(
    c: ClientModel,
    topic: Seq<char>,
    payload: Seq<u8>,
    qos: u8,
    retain: bool,
    now: u64,
)
    requires
        client_bounded(c),
    ensures
        model::accept(c, topic, payload, qos, retain, now) matches Accept::Queued(c2)
            ==> client_bounded(c2),
{
    if qos > 0 && c.in_flight.dom().len() < IN_FLIGHT_CAP {
        let pid = model::free_pid(c.in_flight.dom(), c.next_pid);
        lemma_pid_range(c.in_flight.dom(), c.next_pid);
        match model::accept(c, topic, payload, qos, retain, now) {
            Accept::Queued(c2) => {
                assert(c2.in_flight.dom() =~= c.in_flight.dom().insert(pid));
            },
            _ => {},
        }
    }
}

proof fn lemma_resent_bounded(c: ClientModel, pid: u16, pkt: Seq<u8>, now: u64)
    requires
        client_bounded(c),
    ensures
        model::resent(c, pid, pkt, now) matches Some(c2) ==> client_bounded(c2),
{
    if c.in_flight.contains_key(pid) {
        let f = c.in_flight[pid];
        let renewed = InFlightModel {
            sent_at: now,
            retries: ((f.retries + 1) % 0x1_0000_0000) as u32,
            ..f
        };
        assert(c.in_flight.insert(pid, renewed).dom() =~= c.in_flight.dom());
    }
}

/// A batch takes its packets from the queue, and they end within it.
pub proof fn lemma_fill_batch(batch: Seq<u8>, ends: Seq<nat>, q: Seq<(bool, Seq<u8>)>)
    requires
        forall|i: int| 0 <= i < ends.len() ==> #[trigger] ends[i] <= batch.len(),
    ensures
        ({
            let (b2, e2, q2) = model::fill_batch(batch, ends, q);
            &&& e2.len() + q2.len() == ends.len() + q.len()
            &&& q2.len() <= q.len()
            &&& forall|i: int| 0 <= i < e2.len() ==> #[trigger] e2[i] <= b2.len()
        }),
    decreases q.len(),
{
    if !(batch.len() >= model::BATCH_MAX || q.len() == 0) {
        let joined = batch + q[0].1;
        lemma_fill_batch(joined, ends.push(joined.len()), q.skip(1));
    }
}

pub proof fn lemma_ended(ends: Seq<nat>, off: usize)
    ensures
        model::ended(ends, off) <= ends.len(),
        (forall|i: int| 0 <= i < ends.len() ==> #[trigger] ends[i] <= off) ==> model::ended(
            ends,
            off,
        ) == ends.len(),
    decreases ends.len(),
{
    if ends.len() > 0 {
        lemma_ended(ends.skip(1), off);
        if forall|i: int| 0 <= i < ends.len() ==> #[trigger] ends[i] <= off {
            assert(ends[0] <= off);
            assert forall|i: int| 0 <= i < ends.skip(1).len() implies #[trigger] ends.skip(1)[i]
                <= off by {
                assert(ends[i + 1] <= off);
            }
        }
    }
}

pub proof fn lemma_after_write_bounded(c: ClientModel, n: usize)
    requires
        client_bounded(c),
        n <= model::unwritten(c).len(),
        c.write_pending.len() <= usize::MAX,
    ensures
        client_bounded(model::after_write(c, n).0),
        model::after_write(c, n).0.token == c.token,
{
    lemma_fill_batch(Seq::empty(), Seq::empty(), c.write_queue);
    let off = (c.write_off + n) as usize;
    lemma_ended(c.write_ends, off);
    let k = model::ended(c.write_ends, off) as int;
    assert forall|i: int| 0 <= i < c.write_ends.skip(k).len() implies #[trigger] c.write_ends.skip(
        k,
    )[i] <= c.write_pending.len() by {
        assert(c.write_ends[i + k] <= c.write_pending.len());
    }
}

// ---- what a delivery leaves alone ----

/// `b` is client `a` with messages queued for it.
pub open spec fn only_queued(a: ClientModel, b: ClientModel) -> bool {
    b == (ClientModel {
        write_queue: b.write_queue,
        next_pid: b.next_pid,
        in_flight: b.in_flight,
        ..a
    })
}

/// From `m` to `m2` clients were sent messages or removed for being too slow,
/// and nothing else happened to them.
pub open spec fn only_delivered(m: BrokerModel, m2: BrokerModel) -> bool {
    &&& m2.next_token == m.next_token
    &&& m2.sys_msgs_received == m.sys_msgs_received
    &&& forall|t: usize| #[trigger]
        m2.clients.contains_key(t) ==> m.clients.contains_key(t) && only_queued(
            m.clients[t],
            m2.clients[t],
        )
}

pub proof fn lemma_deliver(
    m: BrokerModel,
    token: usize,
    topic: Seq<char>,
    payload: Seq<u8>,
    qos: u8,
    retain: bool,
    now: u64,
)
    ensures
        ({
            let m2 = model::deliver(m, token, topic, payload, qos, retain, now).0;
            &&& only_delivered(m, m2)
            &&& bounded(m) ==> bounded(m2)
            &&& m2.subs == m.subs
            &&& m2.retained == m.retained
            &&& m2.sessions == m.sessions
            &&& forall|t: usize|
                t != token ==> #[trigger] m2.clients.contains_key(t) == m.clients.contains_key(t)
            &&& forall|t: usize| t != token ==> #[trigger] m2.clients[t] == m.clients[t]
        }),
{
    let m2 = model::deliver(m, token, topic, payload, qos, retain, now).0;
    if m.clients.contains_key(token) && bounded(m) {
        lemma_accept_bounded(m.clients[token], topic, payload, qos, retain, now);
        assert(m2.clients.dom().finite());
    }
}

proof fn lemma_deliver_trans(a: BrokerModel, b: BrokerModel, c: BrokerModel)
    requires
        only_delivered(a, b),
        only_delivered(b, c),
    ensures
        only_delivered(a, c),
{
}

pub proof fn lemma_fan_out(
    m: BrokerModel,
    i: int,
    topic: Seq<char>,
    payload: Seq<u8>,
    qos: u8,
    now: u64,
)
    ensures
        ({
            let m2 = model::fan_out(m, i, topic, payload, qos, now).0;
            &&& only_delivered(m, m2)
            &&& bounded(m) ==> bounded(m2)
            &&& m2.retained == m.retained
            &&& m2.sessions == m.sessions
        }),
    decreases m.subs.len() - i,
{
    if i < 0 || i >= m.subs.len() {
    } else if !filter_matches(m.subs[i].filter, topic) {
        lemma_fan_out(m, i + 1, topic, payload, qos, now);
    } else {
        let sub = m.subs[i];
        let fwd = model::min_qos(qos, sub.qos);
        let (m2, d) = model::deliver(m, sub.token, topic, payload, fwd, false, now);
        lemma_deliver(m, sub.token, topic, payload, fwd, false, now);
        match d {
            Delivery::Gone => {
                let m3 = BrokerModel { subs: model::swap_out(m2.subs, i), ..m2 };
                lemma_fan_out(m3, i, topic, payload, qos, now);
                lemma_deliver_trans(
                    m,
                    m3,
                    model::fan_out(m3, i, topic, payload, qos, now).0,
                );
            },
            _ => {
                lemma_fan_out(m2, i + 1, topic, payload, qos, now);
                lemma_deliver_trans(
                    m,
                    m2,
                    model::fan_out(m2, i + 1, topic, payload, qos, now).0,
                );
            },
        }
    }
}

// ---- stores ----

pub proof fn lemma_retained_at(s: Seq<(Seq<char>, Seq<u8>, u8)>, topic: Seq<char>)
    ensures
        model::retained_at(s, topic) <= s.len(),
        model::retained_at(s, topic) < s.len() ==> s[model::retained_at(s, topic) as int].0 == topic,
        forall|j: int| 0 <= j < model::retained_at(s, topic) ==> (#[trigger] s[j]).0 != topic,
    decreases s.len(),
{
    if s.len() > 0 && s[0].0 != topic {
        lemma_retained_at(s.skip(1), topic);
        assert forall|j: int| 0 <= j < model::retained_at(s, topic) implies (#[trigger] s[j]).0
            != topic by {
            if j > 0 {
                assert(s.skip(1)[j - 1] == s[j]);
            }
        }
    }
}

pub proof fn lemma_position<V>(s: Seq<(Seq<char>, V)>, key: Seq<char>)
    ensures
        model::position(s, key) <= s.len(),
        model::position(s, key) < s.len() ==> s[model::position(s, key) as int].0 == key,
        forall|j: int| 0 <= j < model::position(s, key) ==> (#[trigger] s[j]).0 != key,
    decreases s.len(),
{
    if s.len() > 0 && s[0].0 != key {
        lemma_position(s.skip(1), key);
        assert forall|j: int| 0 <= j < model::position(s, key) implies (#[trigger] s[j]).0
            != key by {
            if j > 0 {
                assert(s.skip(1)[j - 1] == s[j]);
            }
        }
    }
}

proof fn lemma_retain_bounded(
    s: Seq<(Seq<char>, Seq<u8>, u8)>,
    topic: Seq<char>,
    payload: Seq<u8>,
    qos: u8,
)
    requires
        distinct_topics(s),
        forall|i: int| 0 <= i < s.len() ==> (#[trigger] s[i]).1.len() > 0,
    ensures
        ({
            let r = model::retain_message(s, topic, payload, qos);
            &&& distinct_topics(r)
            &&& forall|i: int| 0 <= i < r.len() ==> (#[trigger] r[i]).1.len() > 0
        }),
{
    lemma_retained_at(s, topic);
    let r = model::retain_message(s, topic, payload, qos);
    let k = model::retained_at(s, topic) as int;
    if payload.len() == 0 && k < s.len() {
        assert forall|i: int, j: int| 0 <= i < j < r.len() implies (#[trigger] r[i]).0 != (
        #[trigger] r[j]).0 by {
            let a = if i < k {
                i
            } else {
                i + 1
            };
            let b = if j < k {
                j
            } else {
                j + 1
            };
            assert(r[i] == s[a]);
            assert(r[j] == s[b]);
        }
        assert forall|i: int| 0 <= i < r.len() implies (#[trigger] r[i]).1.len() > 0 by {
            let a = if i < k {
                i
            } else {
                i + 1
            };
            assert(r[i] == s[a]);
        }
    } else if payload.len() > 0 && k < s.len() {
        assert forall|i: int, j: int| 0 <= i < j < r.len() implies (#[trigger] r[i]).0 != (
        #[trigger] r[j]).0 by {
            assert(r[i].0 == s[i].0);
            assert(r[j].0 == s[j].0);
        }
    }
}

proof fn lemma_without_bounded(s: Seq<(Seq<char>, SessionModel)>, cid: Seq<char>)
    requires
        distinct_ids(s),
        forall|i: int| 0 <= i < s.len() ==> (#[trigger] s[i]).1.offline.len() <= OFFLINE_CAP,
    ensures
        ({
            let r = model::without_session(s, cid);
            &&& distinct_ids(r)
            &&& forall|i: int| 0 <= i < r.len() ==> (#[trigger] r[i]).1.offline.len() <= OFFLINE_CAP
        }),
{
    lemma_position(s, cid);
    let r = model::without_session(s, cid);
    let k = model::position(s, cid) as int;
    if k < s.len() {
        assert forall|i: int, j: int| 0 <= i < j < r.len() implies (#[trigger] r[i]).0 != (
        #[trigger] r[j]).0 by {
            let a = if i < k {
                i
            } else {
                i + 1
            };
            let b = if j < k {
                j
            } else {
                j + 1
            };
            assert(r[i] == s[a]);
            assert(r[j] == s[b]);
        }
        assert forall|i: int| 0 <= i < r.len() implies (#[trigger] r[i]).1.offline.len()
            <= OFFLINE_CAP by {
            let a = if i < k {
                i
            } else {
                i + 1
            };
            assert(r[i] == s[a]);
        }
    }
}

proof fn lemma_with_bounded(
    s: Seq<(Seq<char>, SessionModel)>,
    cid: Seq<char>,
    session: SessionModel,
)
    requires
        distinct_ids(s),
        forall|i: int| 0 <= i < s.len() ==> (#[trigger] s[i]).1.offline.len() <= OFFLINE_CAP,
        session.offline.len() <= OFFLINE_CAP,
    ensures
        ({
            let r = model::with_session(s, cid, session);
            &&& distinct_ids(r)
            &&& forall|i: int| 0 <= i < r.len() ==> (#[trigger] r[i]).1.offline.len() <= OFFLINE_CAP
        }),
{
    lemma_position(s, cid);
    let r = model::with_session(s, cid, session);
    let k = model::position(s, cid) as int;
    if k < s.len() {
        assert forall|i: int, j: int| 0 <= i < j < r.len() implies (#[trigger] r[i]).0 != (
        #[trigger] r[j]).0 by {
            assert(r[i].0 == s[i].0);
            assert(r[j].0 == s[j].0);
        }
    }
}

// ---- events ----

/// An empty broker is within its limits.
pub proof fn law_new_bounded(m: BrokerModel)
    requires
        m.clients == Map::<usize, ClientModel>::empty(),
        m.retained == Seq::<(Seq<char>, Seq<u8>, u8)>::empty(),
        m.sessions == Seq::<(Seq<char>, SessionModel)>::empty(),
    ensures
        bounded(m),
{
}

/// A new connection keeps the limits.
pub proof fn law_add_client_bounded(m: BrokerModel)
    requires
        bounded(m),
        m.next_token < usize::MAX,
    ensures
        bounded(
            BrokerModel {
                next_token: (m.next_token + 1) as usize,
                ..model::put_client(m, m.next_token, model::fresh_client(m.next_token))
            },
        ),
{
}

/// Publishing keeps the limits, touches clients only by queueing messages or
/// by removing them for being too slow, and adds no client.
pub proof fn law_publish_bounded(
    m: BrokerModel,
    topic: Seq<char>,
    payload: Seq<u8>,
    qos: u8,
    retain: bool,
    now: u64,
)
    ensures
        ({
            let m2 = model::publish(m, topic, payload, qos, retain, now).0;
            &&& bounded(m) ==> bounded(m2)
            &&& only_delivered(m, m2)
        }),
{
    let m1 = if retain {
        BrokerModel { retained: model::retain_message(m.retained, topic, payload, qos), ..m }
    } else {
        m
    };
    if retain && bounded(m) {
        lemma_retain_bounded(m.retained, topic, payload, qos);
    }
    assert(bounded(m) ==> bounded(m1));
    lemma_fan_out(m1, 0, topic, payload, qos, now);
    let m2 = model::publish(m, topic, payload, qos, retain, now).0;
    if bounded(m) && qos > 0 {
        assert forall|i: int, j: int| 0 <= i < j < m2.sessions.len() implies (
        #[trigger] m2.sessions[i]).0 != (#[trigger] m2.sessions[j]).0 by {
            assert(m2.sessions[i].0 == m.sessions[i].0);
            assert(m2.sessions[j].0 == m.sessions[j].0);
        }
        assert forall|i: int| 0 <= i < m2.sessions.len() implies (
        #[trigger] m2.sessions[i]).1.offline.len() <= OFFLINE_CAP by {
            assert(m.sessions[i].1.offline.len() <= OFFLINE_CAP);
        }
    }
}

proof fn lemma_will(m: BrokerModel, token: usize, now: u64)
    ensures
        bounded(m) ==> bounded(model::publish_will(m, token, now)),
        only_delivered(m, model::publish_will(m, token, now)),
{
    if m.clients.contains_key(token) && m.clients[token].will_flag {
        let c = m.clients[token];
        law_publish_bounded(m, c.will_topic, c.will_message, c.will_qos, c.will_retain, now);
    }
}

/// Removing a client keeps the limits and touches the others only by queueing
/// messages or by removing them for being too slow.
pub proof fn law_remove_bounded(m: BrokerModel, token: usize, now: u64)
    ensures
        ({
            let m2 = model::remove(m, token, now);
            &&& bounded(m) ==> bounded(m2)
            &&& only_delivered(m, m2)
            &&& !m2.clients.contains_key(token)
        }),
{
    let m1 = if !m.clients.contains_key(token) || m.clients[token].clean_disconnect {
        m
    } else {
        model::publish_will(m, token, now)
    };
    lemma_will(m, token, now);
    if bounded(m) && m1.clients.contains_key(token) && model::persistent(m1.clients[token]) {
        let cid = m1.clients[token].client_id;
        lemma_position(m1.sessions, cid);
        lemma_with_bounded(m1.sessions, cid, model::saved_session(m1, token));
    }
}

proof fn lemma_put_bounded(m: BrokerModel, token: usize, c: ClientModel)
    requires
        bounded(m),
        m.clients.contains_key(token),
        client_bounded(c),
        c.token == token,
    ensures
        bounded(model::put_client(m, token, c)),
{
    assert(m.clients[token].token == token);
}

pub proof fn lemma_flush_bounded(
    m: BrokerModel,
    token: usize,
    subs: Seq<(Seq<char>, u8)>,
    queued: Seq<(Seq<char>, Seq<u8>, u8)>,
    now: u64,
)
    ensures
        bounded(m) ==> bounded(model::flush_offline(m, token, subs, queued, now).0),
        only_delivered(m, model::flush_offline(m, token, subs, queued, now).0),
    decreases queued.len(),
{
    if queued.len() > 0 {
        let (topic, payload, q) = queued[0];
        let qos = match model::first_match(subs, topic) {
            Some(s) => model::min_qos(q, s),
            None => q,
        };
        let (m2, d) = model::deliver(m, token, topic, payload, qos, false, now);
        lemma_deliver(m, token, topic, payload, qos, false, now);
        if d !is Gone {
            lemma_flush_bounded(m2, token, subs, queued.skip(1), now);
            lemma_deliver_trans(
                m,
                m2,
                model::flush_offline(m2, token, subs, queued.skip(1), now).0,
            );
        }
    }
}

proof fn lemma_retained_bounded(
    m: BrokerModel,
    token: usize,
    filter: Seq<char>,
    qos: u8,
    stored: Seq<(Seq<char>, Seq<u8>, u8)>,
    now: u64,
)
    ensures
        bounded(m) ==> bounded(model::deliver_retained(m, token, filter, qos, stored, now).0),
        only_delivered(m, model::deliver_retained(m, token, filter, qos, stored, now).0),
    decreases stored.len(),
{
    if stored.len() == 0 {
    } else if !filter_matches(filter, stored[0].0) {
        lemma_retained_bounded(m, token, filter, qos, stored.skip(1), now);
    } else {
        let dqos = model::min_qos(stored[0].2, qos);
        let (m2, d) = model::deliver(m, token, stored[0].0, stored[0].1, dqos, true, now);
        lemma_deliver(m, token, stored[0].0, stored[0].1, dqos, true, now);
        if d !is Gone {
            lemma_retained_bounded(m2, token, filter, qos, stored.skip(1), now);
            lemma_deliver_trans(
                m,
                m2,
                model::deliver_retained(m2, token, filter, qos, stored.skip(1), now).0,
            );
        }
    }
}

pub proof fn lemma_subscribe_bounded(
    m: BrokerModel,
    token: usize,
    topics: Seq<(Seq<char>, u8)>,
    now: u64,
)
    ensures
        bounded(m) ==> bounded(model::subscribe_all(m, token, topics, now).0),
        only_delivered(m, model::subscribe_all(m, token, topics, now).0),
    decreases topics.len(),
{
    if topics.len() > 0 {
        let (filter, qos) = topics[0];
        let m1 = BrokerModel { subs: m.subs.push(SubModel { filter, token, qos }), ..m };
        let (m2, done) = model::deliver_retained(m1, token, filter, qos, m1.retained, now);
        lemma_retained_bounded(m1, token, filter, qos, m1.retained, now);
        assert(only_delivered(m, m1));
        lemma_deliver_trans(m, m1, m2);
        if done {
            lemma_subscribe_bounded(m2, token, topics.skip(1), now);
            lemma_deliver_trans(m, m2, model::subscribe_all(m2, token, topics.skip(1), now).0);
        }
    }
}

proof fn lemma_connect_bounded(
    m: BrokerModel,
    token: usize,
    f: (Seq<char>, u16, bool, u8, bool, Seq<char>, Seq<u8>, bool),
    now: u64,
)
    requires
        bounded(m),
    ensures
        bounded(model::on_connect(m, token, f, now).0),
{
    if m.clients.contains_key(token) {
        let c = model::connected_client(m.clients[token], f, now);
        lemma_put_bounded(m, token, c);
        lemma_without_bounded(m.sessions, f.0);
        if !f.7 {
            match model::session_of(m.sessions, f.0) {
                Some(s) => {
                    let m1 = BrokerModel {
                        subs: m.subs + model::restored(s.subs, token),
                        ..model::put_client(m, token, c)
                    };
                    assert(bounded(m1));
                    lemma_flush_bounded(m1, token, s.subs, s.offline, now);
                    let m2 = model::flush_offline(m1, token, s.subs, s.offline, now).0;
                    lemma_without_bounded(m2.sessions, f.0);
                },
                None => {},
            }
        }
    }
}

proof fn lemma_publish_received(
    m: BrokerModel,
    topic: Seq<char>,
    payload: Seq<u8>,
    qos: u8,
    retain: bool,
    now: u64,
)
    ensures
        bounded(m) ==> bounded(model::publish_received(m, topic, payload, qos, retain, now)),
        only_delivered(m, model::publish_received(m, topic, payload, qos, retain, now)),
{
    law_publish_bounded(m, topic, payload, qos, retain, now);
}

/// Handling a packet keeps the limits.
pub proof fn law_packet_bounded(m: BrokerModel, token: usize, pkt: (u8, u8, Seq<u8>), now: u64)
    requires
        bounded(m),
    ensures
        bounded(model::on_packet(m, token, pkt, now).0),
{
    lemma_content_bounded(model::heard(m, token, now), token, pkt, now);
}

proof fn lemma_content_bounded(m: BrokerModel, token: usize, pkt: (u8, u8, Seq<u8>), now: u64)
    requires
        bounded(m),
    ensures
        bounded(model::on_content(m, token, pkt, now).0),
{
    let (ptype, flags, body) = pkt;
    let here = m.clients.contains_key(token);
    let c = m.clients[token];
    let pid = crate::bytes::be16_at(body, 0);
    if ptype == crate::packet::CONNECT {
        match crate::packet::connect_of(body) {
            Some(f) => {
                lemma_connect_bounded(m, token, f, now);
            },
            None => {},
        }
    } else if ptype == crate::packet::SUBSCRIBE {
        match crate::packet::subscribe_of(body) {
            Some((pid, topics)) => {
                lemma_subscribe_bounded(m, token, topics, now);
            },
            None => {},
        }
    } else if ptype == crate::packet::UNSUBSCRIBE {
    } else if ptype == crate::packet::PUBLISH {
        match crate::packet::publish_of(flags, body) {
            Some(f) => {
                let (topic, qos, id, payload, retain) = f;
                lemma_publish_received(m, topic, payload, qos, retain, now);
                match id {
                    Some(p) => {
                        if here {
                            let m1 = model::reply(m, token, crate::packet::id_packet(0x40, p));
                            lemma_publish_received(m1, topic, payload, qos, retain, now);
                            let c1 = ClientModel { received_qos2: c.received_qos2.insert(p), ..c };
                            let c2 = model::with_qos0(c1, crate::packet::id_packet(0x50, p));
                            let m2 = model::put_client(m, token, c2);
                            lemma_put_bounded(m, token, c2);
                            lemma_publish_received(m2, topic, payload, qos, retain, now);
                        }
                    },
                    None => {},
                }
            },
            None => {},
        }
    } else if ptype == crate::packet::PUBREC {
        if here && body.len() >= 2 && c.in_flight.contains_key(pid) {
            let entry = InFlightModel {
                await_pubcomp: true,
                sent_at: now,
                retries: 0,
                ..c.in_flight[pid]
            };
            assert(c.in_flight.insert(pid, entry).dom() =~= c.in_flight.dom());
        }
    } else if ptype == crate::packet::PUBACK || ptype == crate::packet::PUBCOMP {
        if here && body.len() >= 2 {
            assert(c.in_flight.remove(pid).dom() =~= c.in_flight.dom().remove(pid));
        }
    }
}

/// Handling packets keeps the limits.
pub proof fn law_packets_bounded(
    m: BrokerModel,
    token: usize,
    pkts: Seq<(u8, u8, Seq<u8>)>,
    now: u64,
)
    requires
        bounded(m),
    ensures
        bounded(model::on_packets(m, token, pkts, now).0),
    decreases pkts.len(),
{
    if pkts.len() > 0 {
        law_packet_bounded(m, token, pkts[0], now);
        law_packets_bounded(
            model::on_packet(m, token, pkts[0], now).0,
            token,
            pkts.skip(1),
            now,
        );
    }
}

/// Bytes from a client keep the limits.
pub proof fn law_bytes_bounded(m: BrokerModel, token: usize, data: Seq<u8>, now: u64)
    requires
        bounded(m),
        m.clients.contains_key(token),
    ensures
        bounded(model::on_bytes(m, token, data, now).0),
{
    let c = m.clients[token];
    let c1 = ClientModel { read_buf: c.read_buf + data, ..c };
    let m1 = model::put_client(m, token, c1);
    lemma_put_bounded(m, token, c1);
    match packets_of(c1.read_buf) {
        Ok((pkts, used)) => {
            let c2 = ClientModel { read_buf: c1.read_buf.skip(used as int), ..c1 };
            lemma_put_bounded(m1, token, c2);
            law_packets_bounded(model::put_client(m1, token, c2), token, pkts, now);
        },
        Err(_) => {},
    }
}

/// A step of writing keeps the limits.
pub proof fn law_write_bounded(m: BrokerModel, token: usize, last: WriteOutcome, now: u64)
    requires
        bounded(m),
        m.clients.contains_key(token),
        m.clients[token].write_pending.len() <= usize::MAX,
        last matches WriteOutcome::Wrote(n) ==> n <= model::unwritten(m.clients[token]).len(),
    ensures
        bounded(model::on_write(m, token, last, now).0),
{
    law_remove_bounded(m, token, now);
    lemma_after_write_bounded(m.clients[token], 0);
    match last {
        WriteOutcome::Wrote(n) => {
            lemma_after_write_bounded(m.clients[token], n);
        },
        _ => {},
    }
}

pub proof fn lemma_remove_all(m: BrokerModel, gone: Seq<usize>, now: u64)
    ensures
        bounded(m) ==> bounded(model::remove_all(m, gone, now)),
        only_delivered(m, model::remove_all(m, gone, now)),
        forall|i: int|
            0 <= i < gone.len() ==> !model::remove_all(m, gone, now).clients.contains_key(
                #[trigger] gone[i],
            ),
    decreases gone.len(),
{
    if gone.len() > 0 {
        let m2 = model::remove(m, gone[0], now);
        law_remove_bounded(m, gone[0], now);
        lemma_remove_all(m2, gone.skip(1), now);
        let m3 = model::remove_all(m, gone, now);
        lemma_deliver_trans(m, m2, m3);
        assert forall|i: int| 0 <= i < gone.len() implies !m3.clients.contains_key(
            #[trigger] gone[i],
        ) by {
            if i > 0 {
                assert(gone.skip(1)[i - 1] == gone[i]);
            }
        }
    }
}

pub proof fn lemma_remove_present(m: BrokerModel, list: Seq<usize>, now: u64)
    ensures
        bounded(m) ==> bounded(model::remove_present(m, list, now)),
        only_delivered(m, model::remove_present(m, list, now)),
        forall|i: int|
            0 <= i < list.len() ==> !model::remove_present(m, list, now).clients.contains_key(
                #[trigger] list[i],
            ),
    decreases list.len(),
{
    if list.len() > 0 {
        let m2 = if m.clients.contains_key(list[0]) {
            model::remove(m, list[0], now)
        } else {
            m
        };
        law_remove_bounded(m, list[0], now);
        lemma_remove_present(m2, list.skip(1), now);
        let m3 = model::remove_present(m, list, now);
        lemma_deliver_trans(m, m2, m3);
        assert forall|i: int| 0 <= i < list.len() implies !m3.clients.contains_key(
            #[trigger] list[i],
        ) by {
            if i > 0 {
                assert(list.skip(1)[i - 1] == list[i]);
            }
        }
    }
}

pub proof fn lemma_resend_all(m: BrokerModel, list: Seq<(usize, u16, Seq<u8>)>, now: u64)
    ensures
        bounded(m) ==> bounded(model::resend_all(m, list, now)),
        only_delivered(m, model::resend_all(m, list, now)),
    decreases list.len(),
{
    if list.len() > 0 {
        let (token, pid, pkt) = list[0];
        let m2 = model::resend(m, token, pid, pkt, now);
        if m.clients.contains_key(token) {
            let c = m.clients[token];
            let full = ClientModel { write_queue: model::make_room(c.write_queue), ..c };
            lemma_make_room_len(c.write_queue);
            if bounded(m) {
                lemma_resent_bounded(c, pid, pkt, now);
                lemma_put_bounded(m, token, full);
            }
            law_remove_bounded(model::put_client(m, token, full), token, now);
            assert(only_delivered(m, model::put_client(m, token, full)));
            if model::resent(c, pid, pkt, now) is None {
                lemma_deliver_trans(m, model::put_client(m, token, full), m2);
            }
        }
        lemma_resend_all(m2, list.skip(1), now);
        lemma_deliver_trans(m, m2, model::resend_all(m2, list.skip(1), now));
    }
}

pub proof fn lemma_publish_all(m: BrokerModel, msgs: Seq<(Seq<char>, Seq<u8>)>, now: u64)
    ensures
        bounded(m) ==> bounded(model::publish_all(m, msgs, now)),
        only_delivered(m, model::publish_all(m, msgs, now)),
    decreases msgs.len(),
{
    if msgs.len() > 0 {
        let m2 = model::publish(m, msgs[0].0, msgs[0].1, 0, true, now).0;
        law_publish_bounded(m, msgs[0].0, msgs[0].1, 0, true, now);
        lemma_publish_all(m2, msgs.skip(1), now);
        lemma_deliver_trans(m, m2, model::publish_all(m2, msgs.skip(1), now));
    }
}

proof fn lemma_settle_one_bounded(m: BrokerModel, now: u64)
    requires
        m.leaving.len() > 0,
    ensures
        bounded(m) ==> bounded(model::settle_one(m, now)),
        only_delivered(m, model::settle_one(m, now)),
{
    let d = m.leaving[0];
    let m1 = BrokerModel {
        leaving: m.leaving.skip(1),
        subs: model::other_subs(m.subs, d.token),
        sessions: if d.keep {
            model::with_session(
                m.sessions,
                d.client_id,
                model::merged_session(m.sessions, d.client_id, d.session),
            )
        } else {
            m.sessions
        },
        ..m
    };
    if bounded(m) && d.keep {
        lemma_position(m.sessions, d.client_id);
        lemma_with_bounded(
            m.sessions,
            d.client_id,
            model::merged_session(m.sessions, d.client_id, d.session),
        );
    }
    law_publish_bounded(m1, d.will.0, d.will.1, d.will.2, d.will.3, now);
    lemma_deliver_trans(m, m1, model::settle_one(m, now));
}

proof fn lemma_settle_some_bounded(m: BrokerModel, n: nat, now: u64)
    ensures
        bounded(m) ==> bounded(model::settle_some(m, n, now)),
        only_delivered(m, model::settle_some(m, n, now)),
    decreases n,
{
    if n > 0 && m.leaving.len() > 0 {
        let m2 = model::settle_one(m, now);
        lemma_settle_one_bounded(m, now);
        lemma_settle_some_bounded(m2, (n - 1) as nat, now);
        lemma_deliver_trans(m, m2, model::settle_some(m2, (n - 1) as nat, now));
    }
}

/// Seeing to the clients that were too slow keeps the limits and touches the
/// others only by queueing messages or by removing them in turn.
pub proof fn law_settle_bounded(m: BrokerModel, now: u64)
    ensures
        bounded(m) ==> bounded(model::settle(m, now)),
        only_delivered(m, model::settle(m, now)),
{
    lemma_settle_some_bounded(m, model::departures(m), now);
}

/// The work at the end of a round keeps the limits.
pub proof fn law_tick_bounded(m: BrokerModel, version: Seq<char>, now: u64, retry_ms: u64)
    requires
        bounded(m),
    ensures
        bounded(model::tick(m, version, now, retry_ms)),
{
    lemma_publish_all(m, model::sys_messages(m, version, now), now);
    let m1 = model::sys_tick(m, version, now);
    assert(bounded(m1));
    lemma_remove_all(m1, model::expired(m1, now), now);
    let m2 = model::remove_all(m1, model::expired(m1, now), now);
    let again = model::retries(m2, model::tokens(m2), now, retry_ms);
    lemma_resend_all(m2, again, now);
    lemma_remove_present(
        model::resend_all(m2, again, now),
        model::given_up(m2, now, retry_ms),
        now,
    );
    law_settle_bounded(model::retransmit(m2, now, retry_ms), now);
}

// ---- what has been read ----

/// From `m` to `m2` no client was added, none lost or gained unparsed bytes,
/// and no packet was counted as received.
pub open spec fn same_input(m: BrokerModel, m2: BrokerModel) -> bool {
    &&& m2.sys_msgs_received == m.sys_msgs_received
    &&& forall|t: usize| #[trigger]
        m2.clients.contains_key(t) ==> m.clients.contains_key(t) && m2.clients[t].read_buf
            == m.clients[t].read_buf
}

proof fn lemma_packet_same_input(m: BrokerModel, token: usize, pkt: (u8, u8, Seq<u8>), now: u64)
    ensures
        same_input(m, model::on_packet(m, token, pkt, now).0),
{
    let m0 = model::heard(m, token, now);
    lemma_content_same_input(m0, token, pkt, now);
    assert(same_input(m, m0));
}

proof fn lemma_content_same_input(m: BrokerModel, token: usize, pkt: (u8, u8, Seq<u8>), now: u64)
    ensures
        same_input(m, model::on_content(m, token, pkt, now).0),
{
    let (ptype, flags, body) = pkt;
    let here = m.clients.contains_key(token);
    let c = m.clients[token];
    if ptype == crate::packet::CONNECT {
        match crate::packet::connect_of(body) {
            Some(f) => {
                let c1 = model::connected_client(c, f, now);
                match model::session_of(m.sessions, f.0) {
                    Some(s) => {
                        let m1 = BrokerModel {
                            subs: m.subs + model::restored(s.subs, token),
                            ..model::put_client(m, token, c1)
                        };
                        lemma_flush_bounded(m1, token, s.subs, s.offline, now);
                    },
                    None => {},
                }
            },
            None => {},
        }
    } else if ptype == crate::packet::SUBSCRIBE {
        match crate::packet::subscribe_of(body) {
            Some((pid, topics)) => {
                lemma_subscribe_bounded(m, token, topics, now);
            },
            None => {},
        }
    } else if ptype == crate::packet::PUBLISH {
        match crate::packet::publish_of(flags, body) {
            Some(f) => {
                let (topic, qos, id, payload, retain) = f;
                lemma_publish_received(m, topic, payload, qos, retain, now);
                match id {
                    Some(p) => {
                        let m1 = model::reply(m, token, crate::packet::id_packet(0x40, p));
                        lemma_publish_received(m1, topic, payload, qos, retain, now);
                        let c1 = ClientModel { received_qos2: c.received_qos2.insert(p), ..c };
                        let c2 = model::with_qos0(c1, crate::packet::id_packet(0x50, p));
                        let m2 = model::put_client(m, token, c2);
                        lemma_publish_received(m2, topic, payload, qos, retain, now);
                    },
                    None => {},
                }
            },
            None => {},
        }
    }
}

pub proof fn lemma_packets_same_input(
    m: BrokerModel,
    token: usize,
    pkts: Seq<(u8, u8, Seq<u8>)>,
    now: u64,
)
    ensures
        same_input(m, model::on_packets(m, token, pkts, now).0),
    decreases pkts.len(),
{
    if pkts.len() > 0 {
        lemma_packet_same_input(m, token, pkts[0], now);
        lemma_packets_same_input(
            model::on_packet(m, token, pkts[0], now).0,
            token,
            pkts.skip(1),
            now,
        );
    }
}

/// Bytes that were taken in leave behind what is no whole packet yet, which is
/// never more than the limit; the other clients' unparsed bytes stay as they
/// are.
pub proof fn law_read_buffer_bounded(
    m: BrokerModel,
    token: usize,
    data: Seq<u8>,
    now: u64,
    other: usize,
)
    requires
        m.clients.contains_key(token),
        model::on_bytes(m, token, data, now).1,
        model::on_bytes(m, token, data, now).0.clients.contains_key(other),
    ensures
        ({
            let buf = m.clients[token].read_buf + data;
            let c2 = model::on_bytes(m, token, data, now).0.clients[other];
            &&& other == token ==> c2.read_buf.len() <= READ_CAP && (packets_of(buf) matches Ok(
                (_, used),
            ) && c2.read_buf == buf.skip(used as int))
            &&& other != token ==> m.clients.contains_key(other) && c2.read_buf
                == m.clients[other].read_buf
        }),
{
    let buf = m.clients[token].read_buf + data;
    crate::laws::wire::law_pieces(buf, Seq::empty());
    let c1 = ClientModel { read_buf: buf, ..m.clients[token] };
    let m1 = model::put_client(m, token, c1);
    match packets_of(buf) {
        Ok((pkts, used)) => {
            let c2 = ClientModel { read_buf: buf.skip(used as int), ..c1 };
            lemma_packets_same_input(model::put_client(m1, token, c2), token, pkts, now);
        },
        Err(_) => {},
    }
}

/// Every client's unparsed bytes are within the limit.
pub open spec fn inputs_bounded(m: BrokerModel) -> bool {
    forall|t: usize| #[trigger]
        m.clients.contains_key(t) ==> m.clients[t].read_buf.len() <= READ_CAP
}

/// Whatever a read gives, the limits are kept, those of unparsed bytes too: a
/// client that sends more than it may is removed.
pub proof fn law_read_bounded(m: BrokerModel, token: usize, read: ReadOutcome, now: u64)
    requires
        bounded(m),
        inputs_bounded(m),
        m.clients.contains_key(token),
    ensures
        bounded(model::on_read(m, token, read, now).0),
        inputs_bounded(model::on_read(m, token, read, now).0),
{
    lemma_served_bounded(m, token, read, now);
    law_settle_bounded(model::served(m, token, read, now).0, now);
}

proof fn lemma_served_bounded(m: BrokerModel, token: usize, read: ReadOutcome, now: u64)
    requires
        bounded(m),
        inputs_bounded(m),
        m.clients.contains_key(token),
    ensures
        bounded(model::served(m, token, read, now).0),
        inputs_bounded(model::served(m, token, read, now).0),
{
    match read {
        ReadOutcome::Data(data) => {
            let (m2, open) = model::on_bytes(m, token, data@, now);
            law_bytes_bounded(m, token, data@, now);
            law_remove_bounded(m2, token, now);
            if open {
                assert forall|t: usize| #[trigger] m2.clients.contains_key(
                    t,
                ) implies m2.clients[t].read_buf.len() <= READ_CAP by {
                    law_read_buffer_bounded(m, token, data@, now, t);
                }
            } else {
                let buf = m.clients[token].read_buf + data@;
                let c1 = ClientModel { read_buf: buf, ..m.clients[token] };
                let m1 = model::put_client(m, token, c1);
                match packets_of(buf) {
                    Ok((pkts, used)) => {
                        let c2 = ClientModel { read_buf: buf.skip(used as int), ..c1 };
                        lemma_packets_same_input(
                            model::put_client(m1, token, c2),
                            token,
                            pkts,
                            now,
                        );
                    },
                    Err(_) => {},
                }
                let m3 = model::remove(m2, token, now);
                assert forall|t: usize| #[trigger] m3.clients.contains_key(
                    t,
                ) implies m3.clients[t].read_buf.len() <= READ_CAP by {
                    assert(m2.clients.contains_key(t));
                    assert(m.clients.contains_key(t));
                }
            }
        },
        _ => {
            law_remove_bounded(m, token, now);
        },
    }
}

// ---- who is removed ----

/// A client that connects with a keepalive of `f.1` seconds, and is not heard of
/// again, expires one and a half times as many seconds later, rounded down; one
/// that asks for none never does.
pub proof fn law_keepalive(
    c: ClientModel,
    f: (Seq<char>, u16, bool, u8, bool, Seq<char>, Seq<u8>, bool),
    connected: u64,
    now: u64,
)
    requires
        connected <= model::LATEST,
    ensures
        model::connected_client(c, f, connected).keepalive == f.1,
        model::is_expired(model::connected_client(c, f, connected), now) <==> f.1 > 0 && now
            > connected + (f.1 * 3 / 2) * model::SECOND,
{
}

/// From `m` to `m2` no client was added, and no client's keepalive changed.
pub open spec fn same_timers(m: BrokerModel, m2: BrokerModel) -> bool {
    forall|t: usize| #[trigger]
        m2.clients.contains_key(t) ==> m.clients.contains_key(t) && m2.clients[t].keepalive
            == m.clients[t].keepalive && m2.clients[t].keepalive_deadline
            == m.clients[t].keepalive_deadline
}

proof fn lemma_content_same_timers(m: BrokerModel, token: usize, pkt: (u8, u8, Seq<u8>), now: u64)
    requires
        pkt.0 != crate::packet::CONNECT,
    ensures
        same_timers(m, model::on_content(m, token, pkt, now).0),
{
    let (ptype, flags, body) = pkt;
    let c = m.clients[token];
    if ptype == crate::packet::SUBSCRIBE {
        match crate::packet::subscribe_of(body) {
            Some((pid, topics)) => {
                lemma_subscribe_bounded(m, token, topics, now);
            },
            None => {},
        }
    } else if ptype == crate::packet::PUBLISH {
        match crate::packet::publish_of(flags, body) {
            Some(f) => {
                let (topic, qos, id, payload, retain) = f;
                lemma_publish_received(m, topic, payload, qos, retain, now);
                match id {
                    Some(p) => {
                        let m1 = model::reply(m, token, crate::packet::id_packet(0x40, p));
                        lemma_publish_received(m1, topic, payload, qos, retain, now);
                        let c1 = ClientModel { received_qos2: c.received_qos2.insert(p), ..c };
                        let c2 = model::with_qos0(c1, crate::packet::id_packet(0x50, p));
                        let m2 = model::put_client(m, token, c2);
                        lemma_publish_received(m2, topic, payload, qos, retain, now);
                    },
                    None => {},
                }
            },
            None => {},
        }
    }
}

/// Every packet renews the keepalive of the client that sent it: it expires one
/// and a half times its keepalive after the last packet, and not before. The
/// keepalives of the others stay as they are. (CONNECT sets a keepalive of its
/// own.)
pub proof fn law_packet_renews_keepalive(
    m: BrokerModel,
    token: usize,
    pkt: (u8, u8, Seq<u8>),
    sent: u64,
    now: u64,
    other: usize,
)
    requires
        m.clients.contains_key(token),
        pkt.0 != crate::packet::CONNECT,
        sent <= model::LATEST,
        model::on_packet(m, token, pkt, sent).0.clients.contains_key(other),
    ensures
        ({
            let c = m.clients[other];
            let c2 = model::on_packet(m, token, pkt, sent).0.clients[other];
            &&& m.clients.contains_key(other)
            &&& c2.keepalive == c.keepalive
            &&& other == token ==> (model::is_expired(c2, now) <==> c.keepalive > 0 && now > sent
                + (c.keepalive * 3 / 2) * model::SECOND)
            &&& other != token ==> c2.keepalive_deadline == c.keepalive_deadline
        }),
{
    let m0 = model::heard(m, token, sent);
    lemma_content_same_timers(m0, token, pkt, sent);
    assert(m0.clients.contains_key(other));
}

/// After the keepalive sweep no client is left whose deadline had passed.
pub proof fn law_expired_removed(m: BrokerModel, now: u64, token: usize)
    requires
        m.clients.dom().finite(),
        m.clients.contains_key(token),
        model::is_expired(m.clients[token], now),
    ensures
        !model::remove_all(m, model::expired(m, now), now).clients.contains_key(token),
{
    let all = model::tokens(m);
    let keep = |t: usize| model::is_expired(m.clients[t], now);
    crate::order::lemma_sorted_tokens(m.clients.dom());
    assert(all.contains(token));
    lemma_filter_has(all, keep, token);
    let gone = model::expired(m, now);
    assert(gone == all.filter(keep));
    let i = choose|i: int| 0 <= i < gone.len() && gone[i] == token;
    lemma_remove_all(m, gone, now);
    assert(!model::remove_all(m, gone, now).clients.contains_key(gone[i]));
}

/// When no deadline has passed, the keepalive sweep changes nothing.
pub proof fn law_sweep_without_expired(m: BrokerModel, now: u64)
    requires
        m.clients.dom().finite(),
        forall|t: usize| #[trigger]
            m.clients.contains_key(t) ==> !model::is_expired(m.clients[t], now),
    ensures
        model::remove_all(m, model::expired(m, now), now) == m,
{
    let all = model::tokens(m);
    let keep = |t: usize| model::is_expired(m.clients[t], now);
    crate::order::lemma_sorted_tokens(m.clients.dom());
    let gone = model::expired(m, now);
    assert(gone == all.filter(keep));
    if gone.len() > 0 {
        assert(gone.contains(gone[0]));
        lemma_filter_has(all, keep, gone[0]);
        assert(m.clients.contains_key(gone[0]));
    }
}

} // verus!
