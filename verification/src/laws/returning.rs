//! Laws of leaving and coming back: what a client said when it connected is
//! what becomes of its will and its session.
use crate::laws::bounds::{distinct_ids, distinct_topics, lemma_flush_bounded};
use crate::laws::delivery::{law_fan_out, offered};
use crate::laws::packets::{lemma_filter_one, lemma_filter_sum, lemma_flush_frame, named_by};
use crate::laws::publishing::{
    law_retained_table, law_session_limit, law_session_table, law_subscriptions_merged,
};
use crate::laws::store::lemma_subs_of;
use crate::model;
use crate::model::{BrokerModel, DepartureModel, SessionModel, SubModel};
use crate::topic::filter_matches;
use vstd::prelude::*;

verus! {

// ---- sessions ----

proof fn lemma_message_taken(q: Seq<(bool, Seq<u8>)>, j: int)
    requires
        0 <= j < q.len(),
        q[j].0,
        model::message_in(q[j].1) is Some,
    ensures
        model::queued_messages(q).contains(model::message_in(q[j].1)->0),
        model::queued_messages(q).len() <= q.len(),
    decreases q.len(),
{
    let r = model::queued_messages(q);
    let msg = model::message_in(q[j].1)->0;
    let rest = q.drop_last();
    lemma_messages_fewer(q);
    if j == q.len() - 1 {
        assert(r[r.len() - 1] == msg);
    } else {
        assert(rest[j] == q[j]);
        lemma_message_taken(rest, j);
        let before = model::queued_messages(rest);
        let k = choose|k: int| 0 <= k < before.len() && before[k] == msg;
        assert(r[k] == msg);
    }
}

proof fn lemma_messages_fewer(q: Seq<(bool, Seq<u8>)>)
    ensures
        model::queued_messages(q).len() <= q.len(),
    decreases q.len(),
{
    if q.len() > 0 {
        lemma_messages_fewer(q.drop_last());
    }
}

/// A client that connected without the clean-session flag and with a name, and
/// that leaves without a will to be published, finds a session stored under its
/// name: with each of its subscriptions, with every reliable message still in
/// its queue as long as there is room, and with what was stored before. Others'
/// sessions stay, and nothing is retained.
pub proof fn law_session_kept(
    m: BrokerModel,
    token: usize,
    now: u64,
    sub: SubModel,
    j: int,
    other: (Seq<char>, SessionModel),
) -> (s: SessionModel)
    requires
        m.clients.contains_key(token),
        !m.clients[token].clean_session,
        m.clients[token].client_id.len() > 0,
        m.clients[token].clean_disconnect || !m.clients[token].will_flag,
        distinct_ids(m.sessions),
    ensures
        ({
            let c = m.clients[token];
            let m2 = model::remove(m, token, now);
            &&& m2.sessions.contains((c.client_id, s))
            &&& m.subs.contains(sub) && sub.token == token ==> s.subs.contains(
                (sub.filter, sub.qos),
            )
            &&& other.0 == c.client_id && m.sessions.contains(other) ==> other.1.offline.len()
                <= 1024 ==> other.1.offline.len() <= s.offline.len() && s.offline.take(
                other.1.offline.len() as int,
            ) == other.1.offline
            &&& 0 <= j < c.write_queue.len() && c.write_queue[j].0 && model::message_in(
                c.write_queue[j].1,
            ) is Some && c.write_queue.len() <= 1024 && (forall|i: int|
                0 <= i < m.sessions.len() ==> (#[trigger] m.sessions[i]).0 != c.client_id)
                ==> s.offline.contains(model::message_in(c.write_queue[j].1)->0)
            &&& other.0 != c.client_id ==> (m2.sessions.contains(other) <==> m.sessions.contains(
                other,
            ))
            &&& m2.clients == m.clients.remove(token)
            &&& m2.retained == m.retained
        }),
{
    let c = m.clients[token];
    let s = model::saved_session(m, token);
    let taken = model::taken_along(m, token);
    let before = match model::session_of(m.sessions, c.client_id) {
        Some(stored) => stored,
        None => SessionModel { subs: Seq::empty(), offline: Seq::empty() },
    };
    let m2 = model::remove(m, token, now);
    assert(m2.sessions == model::with_session(m.sessions, c.client_id, s));
    law_session_table(m.sessions, c.client_id, s, (c.client_id, s));
    law_session_table(m.sessions, c.client_id, s, other);
    if m.subs.contains(sub) && sub.token == token {
        lemma_subs_of(m.subs, sub);
        law_subscriptions_merged(before.subs, taken.subs, (sub.filter, sub.qos));
    }
    if before.offline.len() <= 1024 {
        law_session_limit(before.offline, taken.offline);
        assert(s.offline.take(before.offline.len() as int) =~= before.offline);
    }
    if 0 <= j < c.write_queue.len() && c.write_queue[j].0 && model::message_in(
        c.write_queue[j].1,
    ) is Some && c.write_queue.len() <= 1024 && (forall|i: int|
        0 <= i < m.sessions.len() ==> (#[trigger] m.sessions[i]).0 != c.client_id) {
        let msg = model::message_in(c.write_queue[j].1)->0;
        lemma_message_taken(c.write_queue, j);
        assert(model::session_of(m.sessions, c.client_id) is None) by {
            if model::session_of(m.sessions, c.client_id) is Some {
                let found = model::session_of(m.sessions, c.client_id)->0;
                let i = choose|i: int|
                    0 <= i < m.sessions.len() && m.sessions[i] == (c.client_id, found);
                assert(m.sessions[i].0 != c.client_id);
            }
        }
        let k = choose|k: int| 0 <= k < taken.offline.len() && taken.offline[k] == msg;
        assert(s.offline == (before.offline + taken.offline).take(s.offline.len() as int));
        assert(s.offline[k] == msg);
    }
    s
}

/// A client that leaves with DISCONNECT keeps its session like any other: the
/// goodbye concerns its will alone.
pub proof fn law_goodbye_keeps_session(
    m: BrokerModel,
    token: usize,
    flags: u8,
    body: Seq<u8>,
    now: u64,
    later: u64,
    sub: SubModel,
    j: int,
) -> (s: SessionModel)
    requires
        m.clients.contains_key(token),
        !m.clients[token].clean_session,
        m.clients[token].client_id.len() > 0,
        distinct_ids(m.sessions),
    ensures
        ({
            let c = m.clients[token];
            let m1 = model::on_packet(m, token, (14u8, flags, body), now).0;
            let m2 = model::remove(m1, token, later);
            &&& m2.sessions.contains((c.client_id, s))
            &&& m.subs.contains(sub) && sub.token == token ==> s.subs.contains(
                (sub.filter, sub.qos),
            )
            &&& 0 <= j < c.write_queue.len() && c.write_queue[j].0 && model::message_in(
                c.write_queue[j].1,
            ) is Some && c.write_queue.len() <= 1024 && (forall|i: int|
                0 <= i < m.sessions.len() ==> (#[trigger] m.sessions[i]).0 != c.client_id)
                ==> s.offline.contains(model::message_in(c.write_queue[j].1)->0)
            &&& !m2.clients.contains_key(token)
        }),
{
    let c = m.clients[token];
    let m1 = model::on_packet(m, token, (14u8, flags, body), now).0;
    let none = SessionModel { subs: Seq::empty(), offline: Seq::empty() };
    law_session_kept(m1, token, later, sub, j, (c.client_id, none))
}

/// A client with the clean-session flag or without a name leaves no session;
/// what is stored stays as it is.
pub proof fn law_no_session_kept(m: BrokerModel, token: usize, now: u64)
    requires
        m.clients.contains_key(token),
        m.clients[token].clean_session || m.clients[token].client_id.len() == 0,
        m.clients[token].clean_disconnect || !m.clients[token].will_flag,
    ensures
        model::remove(m, token, now).sessions == m.sessions,
{
}

/// The subscriptions of a client that leaves are taken out, and the others stay
/// in their order.
pub proof fn law_others_keep_subscriptions(
    a: Seq<SubModel>,
    b: Seq<SubModel>,
    s: SubModel,
    token: usize,
)
    ensures
        model::other_subs(Seq::empty(), token) == Seq::<SubModel>::empty(),
        s.token == token ==> model::other_subs(seq![s], token).len() == 0,
        s.token != token ==> model::other_subs(seq![s], token) == seq![s],
        model::other_subs(a + b, token) == model::other_subs(a, token) + model::other_subs(
            b,
            token,
        ),
{
    let keep = |x: SubModel| x.token != token;
    lemma_filter_one(s, keep);
    lemma_filter_sum(a, b, keep);
}

/// Removing a client that says goodbye or has no will does nothing but store
/// its session and forget it: the other clients, the counters and what is
/// retained stay. Removing one that is not there only takes out its
/// subscriptions.
pub proof fn law_quiet_removal(m: BrokerModel, token: usize, now: u64)
    requires
        m.clients.contains_key(token) ==> m.clients[token].clean_disconnect
            || !m.clients[token].will_flag,
        m.leaving.len() == 0,
    ensures
        ({
            let m2 = model::remove(m, token, now);
            &&& m2.clients == m.clients.remove(token)
            &&& m2.subs == model::other_subs(m.subs, token)
            &&& !m.clients.contains_key(token) ==> m2.sessions == m.sessions
            &&& m2 == (BrokerModel {
                clients: m2.clients,
                subs: m2.subs,
                sessions: m2.sessions,
                ..m
            })
        }),
{
    assert(model::will_done(m.leaving, token) =~= m.leaving);
    if !m.clients.contains_key(token) {
        assert(m.clients.remove(token) =~= m.clients);
    }
}

// ---- wills ----

proof fn lemma_connected(
    m: BrokerModel,
    token: usize,
    f: (Seq<char>, u16, bool, u8, bool, Seq<char>, Seq<u8>, bool),
    now: u64,
)
    requires
        m.clients.contains_key(token),
    ensures
        ({
            let (m1, r) = model::on_connect(m, token, f, now);
            &&& r is Ok ==> m1.clients.contains_key(token) && named_by(m1.clients[token], f)
                && m1.clients[token].clean_disconnect == m.clients[token].clean_disconnect
            &&& m1.retained == m.retained
        }),
{
    let c = model::connected_client(m.clients[token], f, now);
    if !f.7 {
        match model::session_of(m.sessions, f.0) {
            Some(s) => {
                let m1 = BrokerModel {
                    subs: m.subs + model::restored(s.subs, token),
                    ..model::put_client(m, token, c)
                };
                lemma_flush_bounded(m1, token, s.subs, s.offline, now);
                lemma_flush_frame(m1, token, s.subs, s.offline, now);
            },
            None => {},
        }
    }
}

/// The will that is retained when a client is lost is the one it connected
/// with: topic, message and QoS of the CONNECT, if that asked for a will and for
/// retaining it; an empty message clears what is retained for its topic. A
/// client without a will, or whose will is not to be retained, or that says
/// goodbye, leaves what is retained as it is.
pub proof fn law_will_retained(
    m: BrokerModel,
    token: usize,
    f: (Seq<char>, u16, bool, u8, bool, Seq<char>, Seq<u8>, bool),
    now: u64,
    later: u64,
    e: (Seq<char>, Seq<u8>, u8),
)
    requires
        m.clients.contains_key(token),
        !m.clients[token].clean_disconnect,
        distinct_topics(m.retained),
        model::on_connect(m, token, f, now).1 is Ok,
    ensures
        ({
            let m1 = model::on_connect(m, token, f, now).0;
            let m2 = model::remove(m1, token, later);
            let m3 = model::remove(model::on_disconnect(m1, token).0, token, later);
            &&& f.2 && f.4 ==> (m2.retained.contains(e) <==> (e.0 != f.5 && m.retained.contains(e))
                || (f.6.len() > 0 && e == (f.5, f.6, f.3)))
            &&& !f.2 || !f.4 ==> m2.retained == m.retained
            &&& m3.retained == m.retained
        }),
{
    let m1 = model::on_connect(m, token, f, now).0;
    lemma_connected(m, token, f, now);
    law_retained_table(m1, f.5, f.6, f.3, f.4, later, e);
}

/// When a client is lost, another that holds one matching subscription is
/// offered its will once, as it was given in the CONNECT and at the lower of the
/// two QoS; if there is no will, or after a goodbye, nobody notices.
pub proof fn law_will_delivered(
    m: BrokerModel,
    token: usize,
    f: (Seq<char>, u16, bool, u8, bool, Seq<char>, Seq<u8>, bool),
    now: u64,
    later: u64,
    other: usize,
    k: int,
)
    requires
        m.clients.contains_key(token),
        !m.clients[token].clean_disconnect,
        model::on_connect(m, token, f, now).1 is Ok,
        other != token,
        ({
            let m1 = model::on_connect(m, token, f, now).0;
            &&& m1.clients.contains_key(other)
            &&& 0 <= k < m1.subs.len()
            &&& m1.subs[k].token == other
            &&& filter_matches(m1.subs[k].filter, f.5)
            &&& forall|j: int|
                0 <= j < m1.subs.len() && j != k && (#[trigger] m1.subs[j]).token == other
                    ==> !filter_matches(m1.subs[j].filter, f.5)
        }),
    ensures
        ({
            let m1 = model::on_connect(m, token, f, now).0;
            let m2 = model::remove(m1, token, later);
            let m3 = model::remove(model::on_disconnect(m1, token).0, token, later);
            &&& f.2 ==> offered(
                m1,
                m2,
                other,
                f.5,
                f.6,
                model::min_qos(f.3, m1.subs[k].qos),
                later,
            )
            &&& !f.2 ==> m2.clients == m1.clients.remove(token)
            &&& m3.clients == m1.clients.remove(token)
        }),
{
    let m1 = model::on_connect(m, token, f, now).0;
    lemma_connected(m, token, f, now);
    if f.2 {
        law_fan_out(m1, f.5, f.6, f.3, f.4, later, other, k);
    }
    let d = model::on_disconnect(m1, token).0;
    assert(d.clients.remove(token) =~= m1.clients.remove(token));
}

/// What is noted of a client that was too slow is what it connected with.
pub proof fn law_departure_of_connect(
    m: BrokerModel,
    token: usize,
    f: (Seq<char>, u16, bool, u8, bool, Seq<char>, Seq<u8>, bool),
    now: u64,
)
    requires
        m.clients.contains_key(token),
        !m.clients[token].clean_disconnect,
        model::on_connect(m, token, f, now).1 is Ok,
    ensures
        ({
            let m1 = model::on_connect(m, token, f, now).0;
            let d = model::departure(m1, token);
            &&& d.token == token
            &&& d.client_id == f.0
            &&& d.keep <==> !f.7 && f.0.len() > 0
            &&& d.will_flag == f.2
            &&& d.will == (f.5, f.6, f.3, f.4)
            &&& d.keep ==> d.session.subs == model::subs_of(m1.subs, token) && d.session.offline
                == model::queued_messages(m1.clients[token].write_queue)
        }),
{
    lemma_connected(m, token, f, now);
}

// ---- one after the other ----

/// Stored messages are sent one after the other, in order, up to the one that
/// the client is too slow for.
pub proof fn law_stored_in_order(
    m: BrokerModel,
    token: usize,
    subs: Seq<(Seq<char>, u8)>,
    msg: (Seq<char>, Seq<u8>, u8),
    rest: Seq<(Seq<char>, Seq<u8>, u8)>,
    now: u64,
)
    ensures
        model::flush_offline(m, token, subs, Seq::empty(), now) == (m, true),
        ({
            let (m1, done) = model::flush_offline(m, token, subs, seq![msg], now);
            &&& done ==> model::flush_offline(m, token, subs, seq![msg] + rest, now)
                == model::flush_offline(m1, token, subs, rest, now)
            &&& !done ==> model::flush_offline(m, token, subs, seq![msg] + rest, now) == (m1, false)
        }),
{
    let one = seq![msg];
    assert((one + rest).skip(1) =~= rest);
    assert(one.skip(1) =~= Seq::empty());
    assert((one + rest)[0] == msg && one[0] == msg);
    let (topic, payload, q) = msg;
    let qos = match model::first_match(subs, topic) {
        Some(s) => model::min_qos(q, s),
        None => q,
    };
    let (m1, d) = model::deliver(m, token, topic, payload, qos, false, now);
    assert(model::flush_offline(m1, token, subs, one.skip(1), now) == (m1, true));
}

/// Retained messages are sent one after the other, in order, up to the one that
/// the client is too slow for; those that the filter does not match are passed
/// over.
pub proof fn law_retained_in_order(
    m: BrokerModel,
    token: usize,
    filter: Seq<char>,
    qos: u8,
    e: (Seq<char>, Seq<u8>, u8),
    rest: Seq<(Seq<char>, Seq<u8>, u8)>,
    now: u64,
)
    ensures
        model::deliver_retained(m, token, filter, qos, Seq::empty(), now) == (m, true),
        !filter_matches(filter, e.0) ==> model::deliver_retained(
            m,
            token,
            filter,
            qos,
            seq![e],
            now,
        ) == (m, true),
        ({
            let (m1, done) = model::deliver_retained(m, token, filter, qos, seq![e], now);
            &&& done ==> model::deliver_retained(m, token, filter, qos, seq![e] + rest, now)
                == model::deliver_retained(m1, token, filter, qos, rest, now)
            &&& !done ==> model::deliver_retained(m, token, filter, qos, seq![e] + rest, now) == (
                m1,
                false,
            )
        }),
{
    let one = seq![e];
    assert((one + rest).skip(1) =~= rest);
    assert(one.skip(1) =~= Seq::empty());
    assert((one + rest)[0] == e && one[0] == e);
    assert(model::deliver_retained(m, token, filter, qos, one.skip(1), now) == (m, true));
    let (m1, d) = model::deliver(m, token, e.0, e.1, model::min_qos(e.2, qos), true, now);
    assert(model::deliver_retained(m1, token, filter, qos, one.skip(1), now) == (m1, true));
}

/// A single stored message is delivered at the QoS it is owed, without the
/// retain flag; a single retained one with it, at the lower of the two QoS.
pub proof fn law_single_deliveries(
    m: BrokerModel,
    token: usize,
    subs: Seq<(Seq<char>, u8)>,
    filter: Seq<char>,
    qos: u8,
    e: (Seq<char>, Seq<u8>, u8),
    now: u64,
)
    ensures
        ({
            let (m1, done) = model::flush_offline(m, token, subs, seq![e], now);
            let owed = match model::first_match(subs, e.0) {
                Some(s) => model::min_qos(e.2, s),
                None => e.2,
            };
            let (m2, d) = model::deliver(m, token, e.0, e.1, owed, false, now);
            m1 == m2 && (done <==> d !is Gone)
        }),
        filter_matches(filter, e.0) ==> ({
            let (m1, done) = model::deliver_retained(m, token, filter, qos, seq![e], now);
            let (m2, d) = model::deliver(
                m,
                token,
                e.0,
                e.1,
                model::min_qos(e.2, qos),
                true,
                now,
            );
            m1 == m2 && (done <==> d !is Gone)
        }),
{
    let one = seq![e];
    assert(one.skip(1) =~= Seq::empty());
    assert(one[0] == e);
    let owed = match model::first_match(subs, e.0) {
        Some(s) => model::min_qos(e.2, s),
        None => e.2,
    };
    let m2 = model::deliver(m, token, e.0, e.1, owed, false, now).0;
    assert(model::flush_offline(m2, token, subs, one.skip(1), now) == (m2, true));
    let m3 = model::deliver(m, token, e.0, e.1, model::min_qos(e.2, qos), true, now).0;
    assert(model::deliver_retained(m3, token, filter, qos, one.skip(1), now) == (m3, true));
}

// ---- what is stored, exactly ----

/// What is stored for a client that leaves without a will to be published: its
/// subscriptions, added to those stored before under its name, and the messages
/// of its reliable packets behind those stored before. `before` is what was
/// stored under the name, or an empty session if nothing was.
pub proof fn law_stored_session(
    m: BrokerModel,
    token: usize,
    now: u64,
    before: SessionModel,
)
    requires
        m.clients.contains_key(token),
        !m.clients[token].clean_session,
        m.clients[token].client_id.len() > 0,
        m.clients[token].clean_disconnect || !m.clients[token].will_flag,
        match model::session_of(m.sessions, m.clients[token].client_id) {
            Some(s) => before == s,
            None => before.subs.len() == 0 && before.offline.len() == 0,
        },
    ensures
        ({
            let c = m.clients[token];
            let s = SessionModel {
                subs: model::merge_subs(before.subs, model::subs_of(m.subs, token)),
                offline: model::append_capped(
                    before.offline,
                    model::queued_messages(c.write_queue),
                ),
            };
            model::remove(m, token, now).sessions == model::with_session(
                m.sessions,
                c.client_id,
                s,
            )
        }),
{
    if model::session_of(m.sessions, m.clients[token].client_id) is None {
        assert(before.subs =~= Seq::empty());
        assert(before.offline =~= Seq::empty());
    }
}

/// A client that is too slow for its own will is gone when that has been
/// published: its session is left to its departure, and its will is not
/// published again there. `i` is a place among the departures.
pub proof fn law_lost_to_own_will(m: BrokerModel, token: usize, now: u64, i: int)
    requires
        m.clients.contains_key(token),
        m.clients[token].will_flag,
        !m.clients[token].clean_disconnect,
        ({
            let c = m.clients[token];
            !model::publish(
                m,
                c.will_topic,
                c.will_message,
                c.will_qos,
                c.will_retain,
                now,
            ).0.clients.contains_key(token)
        }),
    ensures
        ({
            let c = m.clients[token];
            let p = model::publish(
                m,
                c.will_topic,
                c.will_message,
                c.will_qos,
                c.will_retain,
                now,
            ).0;
            let m2 = model::remove(m, token, now);
            &&& m2 == (BrokerModel { leaving: m2.leaving, subs: m2.subs, ..p })
            &&& m2.subs == model::other_subs(p.subs, token)
            &&& m2.leaving.len() == p.leaving.len()
            &&& 0 <= i < p.leaving.len() ==> m2.leaving[i] == (DepartureModel {
                will_flag: p.leaving[i].will_flag && p.leaving[i].token != token,
                ..p.leaving[i]
            })
        }),
{
    let c = m.clients[token];
    let p = model::publish(m, c.will_topic, c.will_message, c.will_qos, c.will_retain, now).0;
    assert(p.clients.remove(token) =~= p.clients);
}

} // verus!
