//! Laws of what the broker keeps: retained messages, sessions of absent
//! clients, and last wills.
use crate::bytes::be16;
use crate::laws::bounds::{
    bounded, distinct_ids, distinct_topics, law_publish_bounded, law_remove_bounded, lemma_deliver,
    lemma_fan_out, lemma_position, lemma_retained_at,
};
use crate::laws::delivery::{carries, has_room, law_message_queued, places};
use crate::model;
use crate::model::{BrokerModel, Delivery, PacketError, SessionModel, SubModel, OFFLINE_CAP};
use crate::packet::framed;
use crate::topic::filter_matches;
use crate::views::lemma_filter_has;
use vstd::prelude::*;

verus! {

// ---- retained messages ----

/// The message (payload, QoS) retained for `topic`.
pub open spec fn retained_for(s: Seq<(Seq<char>, Seq<u8>, u8)>, topic: Seq<char>) -> Option<
    (Seq<u8>, u8),
> {
    let i = model::retained_at(s, topic) as int;
    if i < s.len() {
        Some((s[i].1, s[i].2))
    } else {
        None
    }
}

proof fn lemma_retained_for(s: Seq<(Seq<char>, Seq<u8>, u8)>, topic: Seq<char>, i: int)
    requires
        0 <= i <= s.len(),
        forall|j: int| 0 <= j < i ==> (#[trigger] s[j]).0 != topic,
        i < s.len() ==> s[i].0 == topic,
    ensures
        model::retained_at(s, topic) == i,
{
    lemma_retained_at(s, topic);
    let k = model::retained_at(s, topic) as int;
    if k < i {
        assert(s[k].0 != topic);
    }
    if i < k {
        assert(s[i].0 != topic);
    }
}

/// What is retained for a topic is what was last published there with the
/// retain flag; an empty payload clears it. Other topics are not affected.
pub proof fn law_retain(
    s: Seq<(Seq<char>, Seq<u8>, u8)>,
    topic: Seq<char>,
    payload: Seq<u8>,
    qos: u8,
    other: Seq<char>,
)
    requires
        distinct_topics(s),
    ensures
        ({
            let r = model::retain_message(s, topic, payload, qos);
            &&& payload.len() > 0 ==> retained_for(r, topic) == Some((payload, qos))
            &&& payload.len() == 0 ==> retained_for(r, topic) is None
            &&& other != topic ==> retained_for(r, other) == retained_for(s, other)
        }),
{
    let r = model::retain_message(s, topic, payload, qos);
    let k = model::retained_at(s, topic) as int;
    lemma_retained_at(s, topic);
    lemma_retained_at(s, other);
    let o = model::retained_at(s, other) as int;
    if payload.len() > 0 {
        lemma_retained_for(r, topic, k);
        if other != topic {
            if o < s.len() {
                assert(r[o] == s[o]);
                lemma_retained_for(r, other, o);
            } else {
                lemma_retained_for(r, other, r.len() as int);
            }
        }
    } else if k < s.len() {
        assert forall|j: int| 0 <= j < r.len() implies (#[trigger] r[j]).0 != topic by {
            if j < k {
                assert(r[j] == s[j]);
            } else {
                assert(r[j] == s[j + 1]);
            }
        }
        lemma_retained_for(r, topic, r.len() as int);
        if other != topic {
            let o2 = if o < k {
                o
            } else {
                o - 1
            };
            assert forall|j: int| 0 <= j < o2 implies (#[trigger] r[j]).0 != other by {
                if j < k {
                    assert(r[j] == s[j]);
                } else {
                    assert(r[j] == s[j + 1]);
                }
            }
            if o < s.len() {
                assert(r[o2] == s[o]);
            }
            lemma_retained_for(r, other, o2);
        }
    }
}

/// Publishing with the retain flag retains the message, and publishing without
/// it retains nothing.
pub proof fn law_publish_retains(
    m: BrokerModel,
    topic: Seq<char>,
    payload: Seq<u8>,
    qos: u8,
    retain: bool,
    now: u64,
)
    ensures
        model::publish(m, topic, payload, qos, retain, now).0.retained == (if retain {
            model::retain_message(m.retained, topic, payload, qos)
        } else {
            m.retained
        }),
{
    let m1 = if retain {
        BrokerModel { retained: model::retain_message(m.retained, topic, payload, qos), ..m }
    } else {
        m
    };
    lemma_fan_out(m1, 0, topic, payload, qos, now);
}

// ---- messages sent in a row ----

/// The queue `after` is the queue `before` with these messages (topic,
/// payload, QoS) added to its end, in order.
pub open spec fn sent_all(
    before: Seq<(bool, Seq<u8>)>,
    after: Seq<(bool, Seq<u8>)>,
    msgs: Seq<(Seq<char>, Seq<u8>, u8)>,
    retain: bool,
) -> bool {
    &&& after.len() == before.len() + msgs.len()
    &&& after.take(before.len() as int) == before
    &&& forall|i: int|
        #![trigger msgs[i]]
        0 <= i < msgs.len() ==> carries(
            after[before.len() + i],
            msgs[i].0,
            msgs[i].1,
            msgs[i].2,
            retain,
        )
}

proof fn lemma_sent_next(
    q0: Seq<(bool, Seq<u8>)>,
    q1: Seq<(bool, Seq<u8>)>,
    q2: Seq<(bool, Seq<u8>)>,
    msg: (Seq<char>, Seq<u8>, u8),
    rest: Seq<(Seq<char>, Seq<u8>, u8)>,
    retain: bool,
)
    requires
        q1.len() == q0.len() + 1,
        q1.drop_last() == q0,
        carries(q1.last(), msg.0, msg.1, msg.2, retain),
        sent_all(q1, q2, rest, retain),
    ensures
        sent_all(q0, q2, seq![msg] + rest, retain),
{
    let msgs = seq![msg] + rest;
    let n = q0.len() as int;
    assert(q2.take(n) =~= q0) by {
        assert forall|j: int| 0 <= j < n implies q2[j] == q0[j] by {
            assert(q2.take(q1.len() as int)[j] == q1[j]);
            assert(q1.drop_last()[j] == q1[j]);
        }
    }
    assert forall|i: int| #![trigger msgs[i]] 0 <= i < msgs.len() implies carries(
        q2[n + i],
        msgs[i].0,
        msgs[i].1,
        msgs[i].2,
        retain,
    ) by {
        if i == 0 {
            assert(q2.take(q1.len() as int)[n] == q1[n]);
        } else {
            assert(msgs[i] == rest[i - 1]);
        }
    }
}

/// The messages among `stored` that match `filter`, each at no more than the
/// given QoS.
pub open spec fn retained_copies(
    stored: Seq<(Seq<char>, Seq<u8>, u8)>,
    filter: Seq<char>,
    qos: u8,
) -> Seq<(Seq<char>, Seq<u8>, u8)>
    decreases stored.len(),
{
    if stored.len() == 0 {
        Seq::empty()
    } else {
        let rest = retained_copies(stored.skip(1), filter, qos);
        if filter_matches(filter, stored[0].0) {
            seq![(stored[0].0, stored[0].1, model::min_qos(stored[0].2, qos))] + rest
        } else {
            rest
        }
    }
}

/// The number of messages at QoS 1 or 2.
pub open spec fn reliable(msgs: Seq<(Seq<char>, Seq<u8>, u8)>) -> nat
    decreases msgs.len(),
{
    if msgs.len() == 0 {
        0
    } else {
        places(msgs[0].2) + reliable(msgs.skip(1))
    }
}

/// From `m` to `m2` only client `token` and the count of sent messages
/// changed.
pub open spec fn only_client(m: BrokerModel, m2: BrokerModel, token: usize) -> bool {
    &&& m2.clients.contains_key(token)
    &&& m2 == (BrokerModel { sys_pub_sent: m2.sys_pub_sent, clients: m2.clients, ..m })
    &&& m2.clients == m.clients.insert(token, m2.clients[token])
}

proof fn lemma_deliver_with_room(
    m: BrokerModel,
    token: usize,
    topic: Seq<char>,
    payload: Seq<u8>,
    qos: u8,
    retain: bool,
    now: u64,
    n: nat,
    more: nat,
)
    requires
        m.clients.contains_key(token),
        has_room(m.clients[token], n + 1, more + places(qos)),
    ensures
        ({
            let (m2, d) = model::deliver(m, token, topic, payload, qos, retain, now);
            let (c, c2) = (m.clients[token], m2.clients[token]);
            &&& d is Sent
            &&& only_client(m, m2, token)
            &&& has_room(c2, n, more)
            &&& c2.write_queue.len() == c.write_queue.len() + 1
            &&& c2.write_queue.drop_last() == c.write_queue
            &&& carries(c2.write_queue.last(), topic, payload, qos, retain)
        }),
{
    law_message_queued(m.clients[token], topic, payload, qos, retain, now, n, more);
}

pub proof fn lemma_only_client_trans(a: BrokerModel, b: BrokerModel, c: BrokerModel, token: usize)
    requires
        only_client(a, b, token),
        only_client(b, c, token),
    ensures
        only_client(a, c, token),
{
    assert(c.clients =~= a.clients.insert(token, c.clients[token]));
}

pub proof fn lemma_deliver_retained(
    m: BrokerModel,
    token: usize,
    filter: Seq<char>,
    qos: u8,
    stored: Seq<(Seq<char>, Seq<u8>, u8)>,
    now: u64,
    n: nat,
    more: nat,
)
    requires
        m.clients.contains_key(token),
        has_room(
            m.clients[token],
            retained_copies(stored, filter, qos).len() + n,
            reliable(retained_copies(stored, filter, qos)) + more,
        ),
    ensures
        ({
            let (m2, done) = model::deliver_retained(m, token, filter, qos, stored, now);
            &&& done
            &&& only_client(m, m2, token)
            &&& has_room(m2.clients[token], n, more)
            &&& sent_all(
                m.clients[token].write_queue,
                m2.clients[token].write_queue,
                retained_copies(stored, filter, qos),
                true,
            )
        }),
    decreases stored.len(),
{
    let q0 = m.clients[token].write_queue;
    if stored.len() == 0 {
        assert(q0.take(q0.len() as int) =~= q0);
        assert(m.clients =~= m.clients.insert(token, m.clients[token]));
    } else if !filter_matches(filter, stored[0].0) {
        lemma_deliver_retained(m, token, filter, qos, stored.skip(1), now, n, more);
    } else {
        let rest = retained_copies(stored.skip(1), filter, qos);
        let dqos = model::min_qos(stored[0].2, qos);
        assert(retained_copies(stored, filter, qos).skip(1) =~= rest);
        lemma_deliver_with_room(
            m,
            token,
            stored[0].0,
            stored[0].1,
            dqos,
            true,
            now,
            rest.len() + n,
            reliable(rest) + more,
        );
        let m2 = model::deliver(m, token, stored[0].0, stored[0].1, dqos, true, now).0;
        lemma_deliver_retained(m2, token, filter, qos, stored.skip(1), now, n, more);
        let m3 = model::deliver_retained(m2, token, filter, qos, stored.skip(1), now).0;
        lemma_only_client_trans(m, m2, m3, token);
        lemma_sent_next(
            q0,
            m2.clients[token].write_queue,
            m3.clients[token].write_queue,
            (stored[0].0, stored[0].1, dqos),
            rest,
            true,
        );
    }
}

/// A new subscriber with room in its queue is sent every retained message that
/// its filter matches, with the retain flag and at the lower of the two QoS,
/// and then the SUBACK. Nothing else changes but that it is subscribed.
pub proof fn law_subscribe_sends_retained(
    m: BrokerModel,
    token: usize,
    pid: u16,
    filter: Seq<char>,
    qos: u8,
    now: u64,
)
    requires
        m.clients.contains_key(token),
        has_room(
            m.clients[token],
            retained_copies(m.retained, filter, qos).len() + 1,
            reliable(retained_copies(m.retained, filter, qos)),
        ),
    ensures
        ({
            let (m2, r) = model::on_subscribe(m, token, pid, seq![(filter, qos)], now);
            let q2 = m2.clients[token].write_queue;
            &&& r is Ok
            &&& m2.subs == m.subs.push(SubModel { filter, token, qos })
            &&& only_client(BrokerModel { subs: m2.subs, ..m }, m2, token)
            &&& sent_all(
                m.clients[token].write_queue,
                q2.drop_last(),
                retained_copies(m.retained, filter, qos),
                true,
            )
            &&& q2.last() == (false, framed(0x90, be16(pid) + seq![qos]))
        }),
{
    let topics = seq![(filter, qos)];
    let m1 = BrokerModel { subs: m.subs.push(SubModel { filter, token, qos }), ..m };
    lemma_deliver_retained(m1, token, filter, qos, m.retained, now, 1, 0);
    let m2 = model::deliver_retained(m1, token, filter, qos, m1.retained, now).0;
    assert(topics.skip(1) =~= Seq::empty());
    assert(model::subscribe_all(m2, token, topics.skip(1), now) == (m2, true));
    assert(model::subscribe_all(m, token, topics, now) == (m2, true));
    assert(model::grants(topics) =~= seq![qos]);
    let m3 = model::on_subscribe(m, token, pid, topics, now).0;
    let suback = framed(0x90, be16(pid) + seq![qos]);
    assert(m3 == model::reply(m2, token, suback));
    assert(m3.clients[token].write_queue == m2.clients[token].write_queue.push((false, suback)));
    assert(m3.clients[token].write_queue.drop_last() =~= m2.clients[token].write_queue);
    assert(m3.clients =~= m1.clients.insert(token, m3.clients[token]));
}

// ---- sessions ----

/// The QoS at which a stored message is sent to a client with these
/// subscriptions.
pub open spec fn capped_qos(subs: Seq<(Seq<char>, u8)>, msg: (Seq<char>, Seq<u8>, u8)) -> u8 {
    match model::first_match(subs, msg.0) {
        Some(s) => model::min_qos(msg.2, s),
        None => msg.2,
    }
}

/// Stored messages, as they are sent to a client that came back.
pub open spec fn stored_copies(
    subs: Seq<(Seq<char>, u8)>,
    queued: Seq<(Seq<char>, Seq<u8>, u8)>,
) -> Seq<(Seq<char>, Seq<u8>, u8)> {
    queued.map_values(|e: (Seq<char>, Seq<u8>, u8)| (e.0, e.1, capped_qos(subs, e)))
}

pub proof fn lemma_flush_offline(
    m: BrokerModel,
    token: usize,
    subs: Seq<(Seq<char>, u8)>,
    queued: Seq<(Seq<char>, Seq<u8>, u8)>,
    now: u64,
)
    requires
        m.clients.contains_key(token),
        has_room(m.clients[token], queued.len(), reliable(stored_copies(subs, queued))),
    ensures
        ({
            let (m2, done) = model::flush_offline(m, token, subs, queued, now);
            &&& done
            &&& only_client(m, m2, token)
            &&& sent_all(
                m.clients[token].write_queue,
                m2.clients[token].write_queue,
                stored_copies(subs, queued),
                false,
            )
        }),
    decreases queued.len(),
{
    let q0 = m.clients[token].write_queue;
    if queued.len() == 0 {
        assert(q0.take(q0.len() as int) =~= q0);
        assert(m.clients =~= m.clients.insert(token, m.clients[token]));
    } else {
        let (topic, payload, q) = queued[0];
        let qos = capped_qos(subs, queued[0]);
        let rest = stored_copies(subs, queued.skip(1));
        assert(stored_copies(subs, queued).skip(1) =~= rest);
        lemma_deliver_with_room(
            m,
            token,
            topic,
            payload,
            qos,
            false,
            now,
            (queued.len() - 1) as nat,
            reliable(rest),
        );
        let m2 = model::deliver(m, token, topic, payload, qos, false, now).0;
        lemma_flush_offline(m2, token, subs, queued.skip(1), now);
        let m3 = model::flush_offline(m2, token, subs, queued.skip(1), now).0;
        lemma_only_client_trans(m, m2, m3, token);
        lemma_sent_next(
            q0,
            m2.clients[token].write_queue,
            m3.clients[token].write_queue,
            (topic, payload, qos),
            rest,
            false,
        );
        assert(seq![(topic, payload, qos)] + rest =~= stored_copies(subs, queued));
    }
}

/// A client that comes back to its stored session, and has room for what is
/// stored, is answered, takes up its subscriptions again and is sent every
/// stored message in order. The session is then no longer stored.
pub proof fn law_session_restored(
    m: BrokerModel,
    token: usize,
    f: (Seq<char>, u16, bool, u8, bool, Seq<char>, Seq<u8>, bool),
    now: u64,
    s: SessionModel,
)
    requires
        m.clients.contains_key(token),
        !f.7,
        model::session_of(m.sessions, f.0) == Some(s),
        distinct_ids(m.sessions),
        has_room(
            m.clients[token],
            s.offline.len() + 1,
            reliable(stored_copies(s.subs, s.offline)),
        ),
    ensures
        ({
            let (m2, r) = model::on_connect(m, token, f, now);
            let connack = seq![0x20u8, 0x02, 0x00, 0x00];
            &&& r is Ok
            &&& m2.subs == m.subs + model::restored(s.subs, token)
            &&& model::session_of(m2.sessions, f.0) is None
            &&& m2.clients.contains_key(token)
            &&& sent_all(
                m.clients[token].write_queue.push((false, connack)),
                m2.clients[token].write_queue,
                stored_copies(s.subs, s.offline),
                false,
            )
        }),
{
    let c = model::connected_client(m.clients[token], f, now);
    let m1 = BrokerModel {
        subs: m.subs + model::restored(s.subs, token),
        ..model::put_client(m, token, c)
    };
    lemma_flush_offline(m1, token, s.subs, s.offline, now);
    law_session_forgotten(m.sessions, f.0);
}

/// A session that is taken out of the store is not found there any more, and
/// the others stay.
pub proof fn law_session_forgotten(sessions: Seq<(Seq<char>, SessionModel)>, cid: Seq<char>)
    requires
        distinct_ids(sessions),
    ensures
        model::session_of(model::without_session(sessions, cid), cid) is None,
        forall|other: Seq<char>|
            other != cid ==> #[trigger] model::session_of(
                model::without_session(sessions, cid),
                other,
            ) == model::session_of(sessions, other),
{
    let r = model::without_session(sessions, cid);
    let k = model::position(sessions, cid) as int;
    lemma_position(sessions, cid);
    if k < sessions.len() {
        assert forall|j: int| 0 <= j < r.len() implies (#[trigger] r[j]).0 != cid by {
            if j < k {
                assert(r[j] == sessions[j]);
            } else {
                assert(r[j] == sessions[j + 1]);
            }
        }
        lemma_position_is(r, cid, r.len() as int);
        assert forall|other: Seq<char>| other != cid implies #[trigger] model::session_of(r, other)
            == model::session_of(sessions, other) by {
            lemma_position(sessions, other);
            let o = model::position(sessions, other) as int;
            let o2 = if o < k {
                o
            } else {
                o - 1
            };
            assert forall|j: int| 0 <= j < o2 implies (#[trigger] r[j]).0 != other by {
                if j < k {
                    assert(r[j] == sessions[j]);
                } else {
                    assert(r[j] == sessions[j + 1]);
                }
            }
            if o < sessions.len() {
                assert(r[o2] == sessions[o]);
            }
            lemma_position_is(r, other, o2);
        }
    }
}

pub proof fn lemma_position_is<V>(s: Seq<(Seq<char>, V)>, key: Seq<char>, i: int)
    requires
        0 <= i <= s.len(),
        forall|j: int| 0 <= j < i ==> (#[trigger] s[j]).0 != key,
        i < s.len() ==> s[i].0 == key,
    ensures
        model::position(s, key) == i,
{
    lemma_position(s, key);
    let k = model::position(s, key) as int;
    if k < i {
        assert(s[k].0 != key);
    }
    if i < k {
        assert(s[i].0 != key);
    }
}

/// A client that connects with a clean session has none stored afterwards, and
/// takes up no stored subscription.
pub proof fn law_clean_connect_forgets(
    m: BrokerModel,
    token: usize,
    f: (Seq<char>, u16, bool, u8, bool, Seq<char>, Seq<u8>, bool),
    now: u64,
)
    requires
        m.clients.contains_key(token),
        f.7,
        distinct_ids(m.sessions),
    ensures
        ({
            let (m2, r) = model::on_connect(m, token, f, now);
            &&& r is Ok
            &&& model::session_of(m2.sessions, f.0) is None
            &&& m2.subs == m.subs
        }),
{
    law_session_forgotten(m.sessions, f.0);
}

pub proof fn lemma_offline_sessions(
    sessions: Seq<(Seq<char>, SessionModel)>,
    topic: Seq<char>,
    payload: Seq<u8>,
    qos: u8,
    cid: Seq<char>,
)
    ensures
        model::session_of(model::offline_sessions(sessions, topic, payload, qos), cid) == (
        match model::session_of(sessions, cid) {
            Some(s) => Some(model::offline_session(s, topic, payload, qos)),
            None => None,
        }),
{
    let r = model::offline_sessions(sessions, topic, payload, qos);
    lemma_position(sessions, cid);
    let k = model::position(sessions, cid) as int;
    assert forall|j: int| 0 <= j < k implies (#[trigger] r[j]).0 != cid by {
        assert(r[j].0 == sessions[j].0);
    }
    lemma_position_is(r, cid, k);
}

/// While a client is away, a QoS 1 or 2 message that one of its subscriptions
/// matches is added to its session, as long as there is room, at the lower of
/// the two QoS; any other message leaves the session as it is.
pub proof fn law_message_kept_for_absent(
    m: BrokerModel,
    topic: Seq<char>,
    payload: Seq<u8>,
    qos: u8,
    retain: bool,
    now: u64,
    cid: Seq<char>,
    s: SessionModel,
)
    requires
        model::session_of(m.sessions, cid) == Some(s),
    ensures
        model::session_of(model::publish(m, topic, payload, qos, retain, now).0.sessions, cid)
            == Some(
            match model::first_match(s.subs, topic) {
                Some(sqos) if qos > 0 && s.offline.len() < OFFLINE_CAP => SessionModel {
                    offline: s.offline.push((topic, payload, model::min_qos(qos, sqos))),
                    ..s
                },
                _ => s,
            },
        ),
{
    let m1 = if retain {
        BrokerModel { retained: model::retain_message(m.retained, topic, payload, qos), ..m }
    } else {
        m
    };
    lemma_fan_out(m1, 0, topic, payload, qos, now);
    lemma_offline_sessions(m.sessions, topic, payload, qos, cid);
}

/// QoS 0 messages are never kept for an absent client.
pub proof fn law_qos0_not_kept(
    m: BrokerModel,
    topic: Seq<char>,
    payload: Seq<u8>,
    retain: bool,
    now: u64,
)
    ensures
        model::publish(m, topic, payload, 0, retain, now).0.sessions == m.sessions,
{
    let m1 = if retain {
        BrokerModel { retained: model::retain_message(m.retained, topic, payload, 0), ..m }
    } else {
        m
    };
    lemma_fan_out(m1, 0, topic, payload, 0, now);
}

proof fn lemma_fan_out_keeps_subs(
    m: BrokerModel,
    i: int,
    topic: Seq<char>,
    payload: Seq<u8>,
    qos: u8,
    now: u64,
    sub: SubModel,
)
    requires
        m.subs.contains(sub),
        model::fan_out(m, i, topic, payload, qos, now).0.clients.contains_key(sub.token),
    ensures
        model::fan_out(m, i, topic, payload, qos, now).0.subs.contains(sub),
    decreases m.subs.len() - i,
{
    if i < 0 || i >= m.subs.len() {
    } else if !filter_matches(m.subs[i].filter, topic) {
        lemma_fan_out_keeps_subs(m, i + 1, topic, payload, qos, now, sub);
    } else {
        let s = m.subs[i];
        let fwd = model::min_qos(qos, s.qos);
        let (m2, d) = model::deliver(m, s.token, topic, payload, fwd, false, now);
        lemma_deliver(m, s.token, topic, payload, fwd, false, now);
        match d {
            Delivery::Gone => {
                let m3 = BrokerModel { subs: model::swap_out(m2.subs, i), ..m2 };
                lemma_fan_out(m3, i, topic, payload, qos, now);
                assert(m3.clients.contains_key(sub.token));
                assert(s.token != sub.token);
                let k = choose|k: int| 0 <= k < m.subs.len() && m.subs[k] == sub;
                if k == m.subs.len() - 1 {
                    assert(m3.subs[i] == sub);
                } else {
                    assert(m3.subs[k] == sub);
                }
                lemma_fan_out_keeps_subs(m3, i, topic, payload, qos, now, sub);
            },
            _ => {
                lemma_fan_out_keeps_subs(m2, i + 1, topic, payload, qos, now, sub);
            },
        }
    }
}

pub proof fn lemma_subs_of(subs: Seq<SubModel>, sub: SubModel)
    requires
        subs.contains(sub),
    ensures
        model::subs_of(subs, sub.token).contains((sub.filter, sub.qos)),
    decreases subs.len(),
{
    let k = choose|k: int| 0 <= k < subs.len() && subs[k] == sub;
    let r = model::subs_of(subs, sub.token);
    if k == subs.len() - 1 {
        assert(r[r.len() - 1] == (sub.filter, sub.qos));
    } else {
        let rest = subs.drop_last();
        assert(rest[k] == sub);
        lemma_subs_of(rest, sub);
        let before = model::subs_of(rest, sub.token);
        let j = choose|j: int| 0 <= j < before.len() && before[j] == (sub.filter, sub.qos);
        assert(r[j] == before[j]);
    }
}

proof fn lemma_merge_subs(base: Seq<(Seq<char>, u8)>, new: Seq<(Seq<char>, u8)>)
    ensures
        forall|e: (Seq<char>, u8)|
            base.contains(e) || new.contains(e) ==> #[trigger] model::merge_subs(
                base,
                new,
            ).contains(e),
    decreases new.len(),
{
    let r = model::merge_subs(base, new);
    if new.len() > 0 {
        let rest = new.drop_last();
        lemma_merge_subs(base, rest);
        let b = model::merge_subs(base, rest);
        assert forall|e: (Seq<char>, u8)| base.contains(e) || new.contains(e) implies
            #[trigger] r.contains(e) by {
            if e == new.last() {
                if !b.contains(e) {
                    assert(r[r.len() - 1] == e);
                }
            } else {
                if new.contains(e) {
                    let k = choose|k: int| 0 <= k < new.len() && new[k] == e;
                    assert(rest[k] == e);
                }
                assert(b.contains(e));
                let j = choose|j: int| 0 <= j < b.len() && b[j] == e;
                assert(r[j] == e);
            }
        }
    }
}

/// The state in which a leaving client is forgotten: its will has been
/// published, unless it said goodbye.
pub open spec fn before_leaving(m: BrokerModel, token: usize, now: u64) -> BrokerModel {
    if m.clients[token].clean_disconnect {
        m
    } else {
        model::publish_will(m, token, now)
    }
}

/// A client that leaves, and wants its session kept, finds there its
/// subscriptions and the reliable messages it was still to be sent, as far as
/// there is room for these. (Its own will, published first, must not have
/// removed it for being too slow.)
pub proof fn law_session_stored(m: BrokerModel, token: usize, now: u64)
    requires
        m.clients.contains_key(token),
        !m.clients[token].clean_session,
        m.clients[token].client_id.len() > 0,
        before_leaving(m, token, now).clients.contains_key(token),
    ensures
        ({
            let cid = m.clients[token].client_id;
            let m1 = before_leaving(m, token, now);
            let queued = model::queued_messages(m1.clients[token].write_queue);
            &&& model::session_of(model::remove(m, token, now).sessions, cid) matches Some(s)
            &&& forall|i: int|
                0 <= i < m.subs.len() && (#[trigger] m.subs[i]).token == token
                    ==> s.subs.contains((m.subs[i].filter, m.subs[i].qos))
            &&& model::session_of(m1.sessions, cid) is None ==> s.offline
                == model::append_capped(Seq::empty(), queued)
            &&& model::session_of(m1.sessions, cid) matches Some(s0) ==> s.offline
                == model::append_capped(s0.offline, queued)
        }),
{
    let c = m.clients[token];
    let m1 = before_leaving(m, token, now);
    if !c.clean_disconnect && c.will_flag {
        law_publish_bounded(m, c.will_topic, c.will_message, c.will_qos, c.will_retain, now);
    }
    assert(m1.clients[token].client_id == c.client_id);
    let s = model::saved_session(m1, token);
    let r = model::with_session(m1.sessions, c.client_id, s);
    lemma_position(m1.sessions, c.client_id);
    lemma_position_is(r, c.client_id, model::position(m1.sessions, c.client_id) as int);
    assert forall|i: int| 0 <= i < m.subs.len() && (#[trigger] m.subs[i]).token == token implies
        s.subs.contains((m.subs[i].filter, m.subs[i].qos)) by {
        let sub = m.subs[i];
        assert(m.subs.contains(sub));
        if !c.clean_disconnect && c.will_flag {
            let m0 = if c.will_retain {
                BrokerModel {
                    retained: model::retain_message(
                        m.retained,
                        c.will_topic,
                        c.will_message,
                        c.will_qos,
                    ),
                    ..m
                }
            } else {
                m
            };
            lemma_fan_out_keeps_subs(
                m0,
                0,
                c.will_topic,
                c.will_message,
                c.will_qos,
                now,
                sub,
            );
        }
        assert(m1.subs.contains(sub));
        lemma_subs_of(m1.subs, sub);
        let base = match model::session_of(m1.sessions, c.client_id) {
            Some(s0) => s0.subs,
            None => Seq::empty(),
        };
        lemma_merge_subs(base, model::subs_of(m1.subs, token));
    }
}

pub proof fn lemma_first_match(subs: Seq<(Seq<char>, u8)>, topic: Seq<char>, sub: (Seq<char>, u8))
    requires
        subs.contains(sub),
        filter_matches(sub.0, topic),
    ensures
        model::first_match(subs, topic) is Some,
    decreases subs.len(),
{
    let k = choose|k: int| 0 <= k < subs.len() && subs[k] == sub;
    if !filter_matches(subs[0].0, topic) {
        assert(subs.skip(1)[k - 1] == sub);
        lemma_first_match(subs.skip(1), topic, sub);
    }
}

/// A client that keeps its session and leaves, while subscribed to a topic, is
/// sent a QoS 1 or 2 message published there in its absence when it comes back
/// as `back`: it is the last of what it is sent. (Its own will, published
/// first, must not have removed it for being too slow; its session and its
/// queue must have room.)
pub proof fn law_offline_message_arrives(
    m: BrokerModel,
    token: usize,
    k: int,
    topic: Seq<char>,
    payload: Seq<u8>,
    qos: u8,
    retain: bool,
    back: usize,
    f: (Seq<char>, u16, bool, u8, bool, Seq<char>, Seq<u8>, bool),
    now: u64,
)
    requires
        bounded(m),
        m.clients.contains_key(token),
        !m.clients[token].clean_session,
        m.clients[token].client_id.len() > 0,
        before_leaving(m, token, now).clients.contains_key(token),
        0 <= k < m.subs.len(),
        m.subs[k].token == token,
        filter_matches(m.subs[k].filter, topic),
        qos > 0,
        !f.7,
        f.0 == m.clients[token].client_id,
        ({
            let m1 = model::remove(m, token, now);
            let m2 = model::publish(m1, topic, payload, qos, retain, now).0;
            &&& model::session_of(m1.sessions, f.0) matches Some(s)
            &&& s.offline.len() < OFFLINE_CAP
            &&& m2.clients.contains_key(back)
            &&& model::session_of(m2.sessions, f.0) matches Some(s2)
            &&& has_room(
                m2.clients[back],
                s2.offline.len() + 1,
                reliable(stored_copies(s2.subs, s2.offline)),
            )
        }),
    ensures
        ({
            let m1 = model::remove(m, token, now);
            let m2 = model::publish(m1, topic, payload, qos, retain, now).0;
            let (m3, r) = model::on_connect(m2, back, f, now);
            &&& r is Ok
            &&& m3.clients.contains_key(back)
            &&& model::session_of(m1.sessions, f.0) matches Some(s) && (model::first_match(
                s.subs,
                topic,
            ) matches Some(sqos) && carries(
                m3.clients[back].write_queue.last(),
                topic,
                payload,
                model::min_qos(qos, sqos),
                false,
            ))
        }),
{
    let m1 = model::remove(m, token, now);
    let m2 = model::publish(m1, topic, payload, qos, retain, now).0;
    law_remove_bounded(m, token, now);
    law_publish_bounded(m1, topic, payload, qos, retain, now);
    law_session_stored(m, token, now);
    match model::session_of(m1.sessions, f.0) {
        Some(s) => {
            lemma_first_match(s.subs, topic, (m.subs[k].filter, m.subs[k].qos));
            law_message_kept_for_absent(m1, topic, payload, qos, retain, now, f.0, s);
            match model::first_match(s.subs, topic) {
                Some(sqos) => {
                    let msg = (topic, payload, model::min_qos(qos, sqos));
                    let s2 = SessionModel { offline: s.offline.push(msg), ..s };
                    law_session_restored(m2, back, f, now, s2);
                    let copies = stored_copies(s2.subs, s2.offline);
                    let n = copies.len() - 1;
                    assert(s2.offline[n] == msg);
                    assert(copies[n] == (topic, payload, model::min_qos(qos, sqos)));
                },
                None => {},
            }
        },
        None => {},
    }
}

// ---- leaving ----

/// A client that leaves without saying goodbye has its will published: every
/// other client sees what it would see of that message, and it is retained if
/// the will says so.
pub proof fn law_will_published(m: BrokerModel, token: usize, now: u64, other: usize)
    requires
        m.clients.contains_key(token),
        m.clients[token].will_flag,
        !m.clients[token].clean_disconnect,
        other != token,
    ensures
        ({
            let c = m.clients[token];
            let p = model::publish(
                m,
                c.will_topic,
                c.will_message,
                c.will_qos,
                c.will_retain,
                now,
            ).0;
            let m2 = model::remove(m, token, now);
            &&& m2.retained == p.retained
            &&& m2.clients.contains_key(other) == p.clients.contains_key(other)
            &&& m2.clients[other] == p.clients[other]
        }),
{
}

/// A client that said goodbye, or has no will, leaves without a message to
/// anyone.
pub proof fn law_goodbye_is_silent(m: BrokerModel, token: usize, now: u64)
    requires
        m.clients.contains_key(token),
        m.clients[token].clean_disconnect || !m.clients[token].will_flag,
    ensures
        ({
            let m2 = model::remove(m, token, now);
            &&& m2.clients == m.clients.remove(token)
            &&& m2.retained == m.retained
            &&& m.clients[token].clean_session || m.clients[token].client_id.len() == 0
                ==> m2.sessions == m.sessions
        }),
{
}

/// DISCONNECT is a goodbye: the connection is closed, and when the client is
/// removed its will is not published.
pub proof fn law_disconnect_suppresses_will(
    m: BrokerModel,
    token: usize,
    flags: u8,
    body: Seq<u8>,
    now: u64,
)
    requires
        m.clients.contains_key(token),
    ensures
        ({
            let (m2, r) = model::on_packet(m, token, (crate::packet::DISCONNECT, flags, body), now);
            let m3 = model::remove(m2, token, now);
            &&& r == Err::<(), PacketError>(PacketError::Disconnect)
            &&& m3.clients == m.clients.remove(token)
            &&& m3.retained == m.retained
        }),
{
    let m2 = model::on_packet(m, token, (crate::packet::DISCONNECT, flags, body), now).0;
    law_goodbye_is_silent(m2, token, now);
    assert(m2.clients.remove(token) =~= m.clients.remove(token));
}

/// A removed client leaves nothing behind among the clients and the
/// subscriptions, and the subscriptions of others stay unless their client was
/// removed too.
pub proof fn law_removed_leaves_nothing(m: BrokerModel, token: usize, now: u64)
    ensures
        ({
            let m2 = model::remove(m, token, now);
            &&& !m2.clients.contains_key(token)
            &&& forall|i: int| 0 <= i < m2.subs.len() ==> (#[trigger] m2.subs[i]).token != token
            &&& forall|i: int|
                0 <= i < m.subs.len() && (#[trigger] m.subs[i]).token != token
                    && m2.clients.contains_key(m.subs[i].token) ==> m2.subs.contains(m.subs[i])
        }),
{
    let m2 = model::remove(m, token, now);
    let m1 = if m.clients.contains_key(token) && m.clients[token].clean_disconnect {
        m
    } else {
        model::publish_will(m, token, now)
    };
    let keep = |s: SubModel| s.token != token;
    assert(m2.subs == m1.subs.filter(keep));
    assert forall|i: int| 0 <= i < m2.subs.len() implies (#[trigger] m2.subs[i]).token != token by {
        assert(m2.subs.contains(m2.subs[i]));
        lemma_filter_has(m1.subs, keep, m2.subs[i]);
    }
    assert forall|i: int|
        0 <= i < m.subs.len() && (#[trigger] m.subs[i]).token != token && m2.clients.contains_key(
            m.subs[i].token,
        ) implies m2.subs.contains(m.subs[i]) by {
        let sub = m.subs[i];
        assert(m.subs.contains(sub));
        if m.clients.contains_key(token) && !m.clients[token].clean_disconnect
            && m.clients[token].will_flag {
            let c = m.clients[token];
            let m0 = if c.will_retain {
                BrokerModel {
                    retained: model::retain_message(
                        m.retained,
                        c.will_topic,
                        c.will_message,
                        c.will_qos,
                    ),
                    ..m
                }
            } else {
                m
            };
            lemma_fan_out_keeps_subs(
                m0,
                0,
                c.will_topic,
                c.will_message,
                c.will_qos,
                now,
                sub,
            );
        }
        assert(m1.subs.contains(sub));
        lemma_filter_has(m1.subs, keep, sub);
    }
}

/// After UNSUBSCRIBE the client holds no subscription to the filters it named,
/// and every other subscription stays.
pub proof fn law_unsubscribed(
    m: BrokerModel,
    token: usize,
    pid: u16,
    filters: Seq<Seq<char>>,
    sub: SubModel,
)
    ensures
        model::on_unsubscribe(m, token, pid, filters).0.subs.contains(sub) <==> m.subs.contains(
            sub,
        ) && !(sub.token == token && filters.contains(sub.filter)),
{
    let keep = |s: SubModel| !(s.token == token && filters.contains(s.filter));
    assert(model::subs_without(m.subs, token, filters) == m.subs.filter(keep));
    lemma_filter_has(m.subs, keep, sub);
}

} // verus!
