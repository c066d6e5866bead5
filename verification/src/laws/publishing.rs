//! Laws of publishing and of what is kept: counts, the tables of retained
//! messages and of sessions, entry by entry.
use crate::laws::bounds::{
    distinct_ids, distinct_topics, lemma_fan_out, lemma_position, lemma_retained_at,
};
use crate::laws::delivery::lemma_count_twice;
use crate::laws::packets::copies_for;
use crate::laws::queue::law_lower_qos;
use crate::laws::store::{reliable, retained_copies, stored_copies};
use crate::model;
use crate::model::{Accept, BrokerModel, Delivery, SessionModel, SubModel};
use crate::topic::filter_matches;
use vstd::prelude::*;

verus! {

// ---- one delivery ----

/// A message for a client that is not there changes nothing. One that is taken
/// is counted as sent, one that a full queue does not take as dropped; and a
/// client that is too slow is removed. No other client is touched, nor what is
/// subscribed, retained or stored.
pub proof fn law_deliver(
    m: BrokerModel,
    token: usize,
    topic: Seq<char>,
    payload: Seq<u8>,
    qos: u8,
    retain: bool,
    now: u64,
)
    ensures
        ({
            let (m2, d) = model::deliver(m, token, topic, payload, qos, retain, now);
            &&& !m.clients.contains_key(token) ==> m2 == m && d is Gone
            &&& m.clients.contains_key(token) ==> match model::accept(
                m.clients[token],
                topic,
                payload,
                qos,
                retain,
                now,
            ) {
                Accept::Queued(c2) => d is Sent && m2.clients == m.clients.insert(token, c2)
                    && m2.sys_pub_sent == model::count(m.sys_pub_sent, 1) && m2.drops == m.drops
                    && m2.leaving == m.leaving,
                Accept::Full => d is Dropped && m2.clients == m.clients && m2.drops
                    == model::count(m.drops, 1) && m2.sys_pub_sent == m.sys_pub_sent && m2.leaving
                    == m.leaving,
                Accept::TooSlow => d is Gone && m2.clients == m.clients.remove(token)
                    && m2.leaving.len() == m.leaving.len() + 1 && m2.leaving.drop_last()
                    == m.leaving && m2.leaving.last().token == token && m2.drops == m.drops
                    && m2.sys_pub_sent == m.sys_pub_sent,
            }
            &&& m2 == (BrokerModel {
                clients: m2.clients,
                leaving: m2.leaving,
                drops: m2.drops,
                sys_pub_sent: m2.sys_pub_sent,
                ..m
            })
        }),
{
    let m2 = model::deliver(m, token, topic, payload, qos, retain, now).0;
    if m2.leaving.len() == m.leaving.len() + 1 {
        assert(m2.leaving.drop_last() =~= m.leaving);
    }
}

// ---- counts ----

proof fn lemma_deliver_counts(
    m: BrokerModel,
    token: usize,
    topic: Seq<char>,
    payload: Seq<u8>,
    qos: u8,
    retain: bool,
    now: u64,
)
    ensures
        ({
            let (m2, d) = model::deliver(m, token, topic, payload, qos, retain, now);
            &&& m2.sys_pub_sent == (if d is Sent {
                model::count(m.sys_pub_sent, 1)
            } else {
                m.sys_pub_sent
            })
            &&& m2.drops == (if d is Dropped {
                model::count(m.drops, 1)
            } else {
                m.drops
            })
            &&& m2 == BrokerModel {
                clients: m2.clients,
                leaving: m2.leaving,
                drops: m2.drops,
                sys_pub_sent: m2.sys_pub_sent,
                ..m
            }
        }),
{
}

proof fn lemma_count_none(x: u64)
    ensures
        model::count(x, 0) == x,
{
}

#[verifier::rlimit(40)]
proof fn lemma_fan_out_frame(
    m: BrokerModel,
    i: int,
    topic: Seq<char>,
    payload: Seq<u8>,
    qos: u8,
    now: u64,
)
    ensures
        ({
            let (m2, sent, dropped, dead) = model::fan_out(m, i, topic, payload, qos, now);
            &&& m2.sys_pub_sent == model::count(m.sys_pub_sent, sent)
            &&& m2.drops == model::count(m.drops, dropped)
            &&& m2.subs.len() + dead == m.subs.len()
            &&& m2 == BrokerModel {
                clients: m2.clients,
                subs: m2.subs,
                leaving: m2.leaving,
                drops: m2.drops,
                sys_pub_sent: m2.sys_pub_sent,
                ..m
            }
        }),
    decreases m.subs.len() - i,
{
    lemma_count_none(m.sys_pub_sent);
    lemma_count_none(m.drops);
    if i < 0 || i >= m.subs.len() {
    } else if !filter_matches(m.subs[i].filter, topic) {
        lemma_fan_out_frame(m, i + 1, topic, payload, qos, now);
    } else {
        let sub = m.subs[i];
        let fwd = model::min_qos(qos, sub.qos);
        let (m2, d) = model::deliver(m, sub.token, topic, payload, fwd, false, now);
        lemma_deliver_counts(m, sub.token, topic, payload, fwd, false, now);
        match d {
            Delivery::Sent => {
                lemma_fan_out_frame(m2, i + 1, topic, payload, qos, now);
                let r = model::fan_out(m2, i + 1, topic, payload, qos, now);
                lemma_count_twice(m.sys_pub_sent, 1, r.1);
            },
            Delivery::Dropped => {
                lemma_fan_out_frame(m2, i + 1, topic, payload, qos, now);
                let r = model::fan_out(m2, i + 1, topic, payload, qos, now);
                lemma_count_twice(m.drops, 1, r.2);
            },
            Delivery::Gone => {
                let m3 = BrokerModel { subs: model::swap_out(m2.subs, i), ..m2 };
                lemma_fan_out_frame(m3, i, topic, payload, qos, now);
            },
        }
    }
}

/// Publishing counts what it does: messages sent and dropped as it reports them,
/// and the subscriptions it took out. The other counters stay.
pub proof fn law_publish_counts(
    m: BrokerModel,
    topic: Seq<char>,
    payload: Seq<u8>,
    qos: u8,
    retain: bool,
    now: u64,
)
    ensures
        ({
            let (m2, sent, dropped) = model::publish(m, topic, payload, qos, retain, now);
            &&& m2.sys_pub_sent == model::count(m.sys_pub_sent, sent)
            &&& m2.drops == model::count(m.drops, dropped)
            &&& m2.subs.len() <= m.subs.len()
            &&& m2.dead_pruned == model::count(
                m.dead_pruned,
                (m.subs.len() - m2.subs.len()) as nat,
            )
            &&& m2.next_token == m.next_token
            &&& m2.sys_clients_total == m.sys_clients_total
            &&& m2.sys_msgs_received == m.sys_msgs_received
            &&& m2.sys_msgs_sent == m.sys_msgs_sent
            &&& m2.sys_pub_received == m.sys_pub_received
            &&& m2.sys_start == m.sys_start
            &&& m2.sys_last_publish == m.sys_last_publish
        }),
{
    let m1 = if retain {
        BrokerModel { retained: model::retain_message(m.retained, topic, payload, qos), ..m }
    } else {
        m
    };
    lemma_fan_out_frame(m1, 0, topic, payload, qos, now);
}

// ---- retained messages ----

/// A message published with the retain flag replaces what is retained for its
/// topic, and an empty one clears it; nothing else in the table changes, and
/// without the flag nothing does.
pub proof fn law_retained_table(
    m: BrokerModel,
    topic: Seq<char>,
    payload: Seq<u8>,
    qos: u8,
    retain: bool,
    now: u64,
    e: (Seq<char>, Seq<u8>, u8),
)
    requires
        distinct_topics(m.retained),
    ensures
        ({
            let r = model::publish(m, topic, payload, qos, retain, now).0.retained;
            &&& retain ==> (r.contains(e) <==> (e.0 != topic && m.retained.contains(e)) || (
            payload.len() > 0 && e == (topic, payload, qos)))
            &&& !retain ==> r == m.retained
        }),
{
    let s = m.retained;
    let m1 = if retain {
        BrokerModel { retained: model::retain_message(s, topic, payload, qos), ..m }
    } else {
        m
    };
    lemma_fan_out(m1, 0, topic, payload, qos, now);
    lemma_retained_at(s, topic);
    let k = model::retained_at(s, topic) as int;
    let r = model::retain_message(s, topic, payload, qos);
    if retain {
        if k < s.len() {
            assert(s[k].0 == topic);
        }
        if payload.len() > 0 {
            assert(r[k] == (topic, payload, qos));
        }
        if s.contains(e) && e.0 != topic {
            let j = choose|j: int| 0 <= j < s.len() && s[j] == e;
            if payload.len() == 0 && k < s.len() && j > k {
                assert(r[j - 1] == e);
            } else {
                assert(r[j] == e);
            }
        }
        if r.contains(e) {
            let j = choose|j: int| 0 <= j < r.len() && r[j] == e;
            if payload.len() > 0 {
                if j != k {
                    assert(s[j] == e);
                    if k < s.len() {
                        assert(s[j].0 != s[k].0);
                    } else {
                        assert(s[j].0 != topic);
                    }
                }
            } else if k < s.len() {
                let o = if j < k {
                    j
                } else {
                    j + 1
                };
                assert(s[o] == e);
                assert(s[o].0 != s[k].0);
            } else {
                assert(s[j] == e);
                assert(s[j].0 != topic);
            }
        }
    }
}

/// What a new subscriber is sent is picked message by message: of two tables put
/// together what is picked of each, and of one message that message, at the
/// lower QoS, if the filter matches its topic.
pub proof fn law_retained_picked(
    a: Seq<(Seq<char>, Seq<u8>, u8)>,
    b: Seq<(Seq<char>, Seq<u8>, u8)>,
    e: (Seq<char>, Seq<u8>, u8),
    filter: Seq<char>,
    qos: u8,
)
    ensures
        retained_copies(Seq::empty(), filter, qos) == Seq::<(Seq<char>, Seq<u8>, u8)>::empty(),
        filter_matches(filter, e.0) ==> retained_copies(seq![e], filter, qos).len() == 1
            && retained_copies(seq![e], filter, qos)[0].0 == e.0
            && retained_copies(seq![e], filter, qos)[0].1 == e.1
            && retained_copies(seq![e], filter, qos)[0].2 <= qos
            && retained_copies(seq![e], filter, qos)[0].2 <= e.2
            && (retained_copies(seq![e], filter, qos)[0].2 == qos
            || retained_copies(seq![e], filter, qos)[0].2 == e.2),
        !filter_matches(filter, e.0) ==> retained_copies(seq![e], filter, qos).len() == 0,
        retained_copies(a + b, filter, qos) == retained_copies(a, filter, qos) + retained_copies(
            b,
            filter,
            qos,
        ),
    decreases a.len(),
{
    let one = seq![e];
    assert(one.skip(1) =~= Seq::empty());
    assert(retained_copies(one.skip(1), filter, qos) == Seq::<
        (Seq<char>, Seq<u8>, u8),
    >::empty());
    law_lower_qos(e.2, qos);
    if a.len() == 0 {
        assert(a + b =~= b);
        assert(retained_copies(a + b, filter, qos) =~= retained_copies(a, filter, qos)
            + retained_copies(b, filter, qos));
    } else {
        assert((a + b).skip(1) =~= a.skip(1) + b);
        law_retained_picked(a.skip(1), b, e, filter, qos);
        assert(retained_copies(a + b, filter, qos) =~= retained_copies(a, filter, qos)
            + retained_copies(b, filter, qos));
    }
}

/// For a list of filters the retained messages are picked filter by filter.
pub proof fn law_retained_picked_for_list(
    stored: Seq<(Seq<char>, Seq<u8>, u8)>,
    a: Seq<(Seq<char>, u8)>,
    b: Seq<(Seq<char>, u8)>,
    t: (Seq<char>, u8),
)
    ensures
        copies_for(stored, Seq::empty()) == Seq::<(Seq<char>, Seq<u8>, u8)>::empty(),
        copies_for(stored, seq![t]) == retained_copies(stored, t.0, t.1),
        copies_for(stored, a + b) == copies_for(stored, a) + copies_for(stored, b),
    decreases a.len(),
{
    let one = seq![t];
    assert(one.skip(1) =~= Seq::empty());
    assert(copies_for(stored, one.skip(1)) == Seq::<(Seq<char>, Seq<u8>, u8)>::empty());
    assert(copies_for(stored, one) =~= retained_copies(stored, t.0, t.1));
    if a.len() == 0 {
        assert(a + b =~= b);
        assert(copies_for(stored, a + b) =~= copies_for(stored, a) + copies_for(stored, b));
    } else {
        assert((a + b).skip(1) =~= a.skip(1) + b);
        law_retained_picked_for_list(stored, a.skip(1), b, t);
        assert(copies_for(stored, a + b) =~= copies_for(stored, a) + copies_for(stored, b));
    }
}

// ---- sessions ----

pub proof fn lemma_first_match_at(subs: Seq<(Seq<char>, u8)>, topic: Seq<char>, k: int)
    requires
        0 <= k <= subs.len(),
        forall|j: int| 0 <= j < k ==> !filter_matches((#[trigger] subs[j]).0, topic),
        k < subs.len() ==> filter_matches(subs[k].0, topic),
    ensures
        model::first_match(subs, topic) == (if k < subs.len() {
            Some(subs[k].1)
        } else {
            None
        }),
    decreases k,
{
    if k > 0 {
        let rest = subs.skip(1);
        assert(!filter_matches(subs[0].0, topic));
        assert forall|j: int| 0 <= j < k - 1 implies !filter_matches(
            (#[trigger] rest[j]).0,
            topic,
        ) by {
            assert(rest[j] == subs[j + 1]);
        }
        if k < subs.len() {
            assert(rest[k - 1] == subs[k]);
        }
        lemma_first_match_at(rest, topic, k - 1);
    }
}

/// A QoS 1 or 2 message is added to every stored session with a matching
/// subscription and fewer than 1024 messages, at the lower of its QoS and that
/// of the first subscription that matches; other sessions stay as they are, and
/// so do all their names, their subscriptions and their places. `k` is the place
/// of the first subscription that matches, or their number if none does.
pub proof fn law_stored_messages(
    m: BrokerModel,
    topic: Seq<char>,
    payload: Seq<u8>,
    qos: u8,
    retain: bool,
    now: u64,
    i: int,
    k: int,
)
    requires
        0 <= i < m.sessions.len(),
        0 <= k <= m.sessions[i].1.subs.len(),
        forall|j: int|
            0 <= j < k ==> !filter_matches((#[trigger] m.sessions[i].1.subs[j]).0, topic),
        k < m.sessions[i].1.subs.len() ==> filter_matches(m.sessions[i].1.subs[k].0, topic),
    ensures
        ({
            let m2 = model::publish(m, topic, payload, qos, retain, now).0;
            let (s, s2) = (m.sessions[i].1, m2.sessions[i].1);
            &&& m2.sessions.len() == m.sessions.len()
            &&& m2.sessions[i].0 == m.sessions[i].0
            &&& s2.subs == s.subs
            &&& qos > 0 && k < s.subs.len() && s.offline.len() < 1024 ==> {
                &&& s2.offline.len() == s.offline.len() + 1
                &&& s2.offline.drop_last() == s.offline
                &&& s2.offline.last().0 == topic
                &&& s2.offline.last().1 == payload
                &&& s2.offline.last().2 <= qos && s2.offline.last().2 <= s.subs[k].1
                &&& s2.offline.last().2 == qos || s2.offline.last().2 == s.subs[k].1
            }
            &&& qos == 0 || k == s.subs.len() || s.offline.len() >= 1024 ==> s2 == s
        }),
{
    let m1 = if retain {
        BrokerModel { retained: model::retain_message(m.retained, topic, payload, qos), ..m }
    } else {
        m
    };
    lemma_fan_out(m1, 0, topic, payload, qos, now);
    let s = m.sessions[i].1;
    lemma_first_match_at(s.subs, topic, k);
    if k < s.subs.len() {
        law_lower_qos(qos, s.subs[k].1);
    }
    let s2 = model::publish(m, topic, payload, qos, retain, now).0.sessions[i].1;
    if qos > 0 && k < s.subs.len() && s.offline.len() < 1024 {
        assert(s2.offline.drop_last() =~= s.offline);
    }
}

/// A stored message is sent at no more than its QoS and that of the first
/// subscription that matches it, and at one of the two; at its own if none does.
pub proof fn law_stored_copies(
    subs: Seq<(Seq<char>, u8)>,
    queued: Seq<(Seq<char>, Seq<u8>, u8)>,
    i: int,
    k: int,
)
    requires
        0 <= i < queued.len(),
        0 <= k <= subs.len(),
        forall|j: int| 0 <= j < k ==> !filter_matches((#[trigger] subs[j]).0, queued[i].0),
        k < subs.len() ==> filter_matches(subs[k].0, queued[i].0),
    ensures
        ({
            let r = stored_copies(subs, queued);
            &&& r.len() == queued.len()
            &&& r[i].0 == queued[i].0 && r[i].1 == queued[i].1
            &&& k < subs.len() ==> r[i].2 <= queued[i].2 && r[i].2 <= subs[k].1 && (r[i].2
                == queued[i].2 || r[i].2 == subs[k].1)
            &&& k == subs.len() ==> r[i].2 == queued[i].2
        }),
{
    lemma_first_match_at(subs, queued[i].0, k);
    if k < subs.len() {
        law_lower_qos(queued[i].2, subs[k].1);
    }
}

/// Storing a session replaces what is stored under its name, taking it out
/// removes that, and the others stay; what is found under a name is what is
/// stored there.
pub proof fn law_session_table(
    sessions: Seq<(Seq<char>, SessionModel)>,
    cid: Seq<char>,
    s: SessionModel,
    e: (Seq<char>, SessionModel),
)
    requires
        distinct_ids(sessions),
    ensures
        model::with_session(sessions, cid, s).contains(e) <==> e == (cid, s) || (e.0 != cid
            && sessions.contains(e)),
        model::without_session(sessions, cid).contains(e) <==> e.0 != cid && sessions.contains(e),
        sessions.contains(e) ==> model::session_of(sessions, e.0) == Some(e.1),
        model::session_of(sessions, cid) matches Some(found) ==> sessions.contains((cid, found)),
{
    lemma_position(sessions, cid);
    lemma_position(sessions, e.0);
    let k = model::position(sessions, cid) as int;
    let w = model::with_session(sessions, cid, s);
    let r = model::without_session(sessions, cid);
    assert(w[k] == (cid, s));
    if k < sessions.len() {
        assert(sessions[k].0 == cid);
        assert(sessions[k] == (cid, sessions[k].1));
    }
    if sessions.contains(e) {
        let j = choose|j: int| 0 <= j < sessions.len() && sessions[j] == e;
        let p = model::position(sessions, e.0) as int;
        assert(p == j) by {
            if p < j {
                assert(sessions[p].0 != sessions[j].0);
            } else if p > j {
                assert(sessions[j].0 != e.0);
            }
        }
        if e.0 != cid {
            assert(w[j] == e);
            if k < sessions.len() && j > k {
                assert(r[j - 1] == e);
            } else {
                assert(r[j] == e);
            }
        }
    }
    if w.contains(e) && e != (cid, s) {
        let j = choose|j: int| 0 <= j < w.len() && w[j] == e;
        assert(j != k);
        assert(sessions[j] == e);
        if k < sessions.len() {
            if j < k {
                assert(sessions[j].0 != sessions[k].0);
            } else {
                assert(sessions[k].0 != sessions[j].0);
            }
        } else {
            assert(sessions[j].0 != cid);
        }
    }
    if r.contains(e) {
        let j = choose|j: int| 0 <= j < r.len() && r[j] == e;
        let o = if k < sessions.len() && j >= k {
            j + 1
        } else {
            j
        };
        assert(sessions[o] == e);
        if k < sessions.len() {
            if o < k {
                assert(sessions[o].0 != sessions[k].0);
            } else {
                assert(sessions[k].0 != sessions[o].0);
            }
        } else {
            assert(sessions[o].0 != cid);
        }
    }
}

/// The messages that a leaving client takes along are those of its reliable
/// packets, packet by packet and in order.
pub proof fn law_messages_taken(
    a: Seq<(bool, Seq<u8>)>,
    b: Seq<(bool, Seq<u8>)>,
    e: (bool, Seq<u8>),
)
    ensures
        model::queued_messages(Seq::empty()) == Seq::<(Seq<char>, Seq<u8>, u8)>::empty(),
        e.0 ==> (model::message_in(e.1) matches Some(msg) ==> model::queued_messages(seq![e])
            == seq![msg]),
        !e.0 || model::message_in(e.1) is None ==> model::queued_messages(seq![e]).len() == 0,
        model::queued_messages(a + b) == model::queued_messages(a) + model::queued_messages(b),
    decreases b.len(),
{
    let one = seq![e];
    assert(one.drop_last() =~= Seq::empty());
    assert(model::queued_messages(one.drop_last()) == Seq::<
        (Seq<char>, Seq<u8>, u8),
    >::empty());
    match model::message_in(e.1) {
        Some(msg) if e.0 => {
            assert(model::queued_messages(one) =~= seq![msg]);
        },
        _ => {},
    }
    if b.len() == 0 {
        assert(a + b =~= a);
        assert(model::queued_messages(a + b) =~= model::queued_messages(a)
            + model::queued_messages(b));
    } else {
        assert((a + b).drop_last() =~= a + b.drop_last());
        assert((a + b).last() == b.last());
        law_messages_taken(a, b.drop_last(), e);
        assert(model::queued_messages(a + b) =~= model::queued_messages(a)
            + model::queued_messages(b));
    }
}

/// The subscriptions that a leaving client takes along are all of its own, one
/// by one and in order.
pub proof fn law_subscriptions_taken(
    a: Seq<SubModel>,
    b: Seq<SubModel>,
    s: SubModel,
    token: usize,
)
    ensures
        model::subs_of(Seq::empty(), token) == Seq::<(Seq<char>, u8)>::empty(),
        s.token == token ==> model::subs_of(seq![s], token) == seq![(s.filter, s.qos)],
        s.token != token ==> model::subs_of(seq![s], token).len() == 0,
        model::subs_of(a + b, token) == model::subs_of(a, token) + model::subs_of(b, token),
    decreases b.len(),
{
    let one = seq![s];
    assert(one.drop_last() =~= Seq::empty());
    assert(model::subs_of(one.drop_last(), token) == Seq::<(Seq<char>, u8)>::empty());
    if s.token == token {
        assert(model::subs_of(one, token) =~= seq![(s.filter, s.qos)]);
    }
    if b.len() == 0 {
        assert(a + b =~= a);
        assert(model::subs_of(a + b, token) =~= model::subs_of(a, token) + model::subs_of(
            b,
            token,
        ));
    } else {
        assert((a + b).drop_last() =~= a + b.drop_last());
        assert((a + b).last() == b.last());
        law_subscriptions_taken(a, b.drop_last(), s, token);
        assert(model::subs_of(a + b, token) =~= model::subs_of(a, token) + model::subs_of(
            b,
            token,
        ));
    }
}

/// A session holds 1024 messages at most: what comes first stays.
pub proof fn law_session_limit(
    base: Seq<(Seq<char>, Seq<u8>, u8)>,
    new: Seq<(Seq<char>, Seq<u8>, u8)>,
)
    requires
        base.len() <= 1024,
    ensures
        ({
            let r = model::append_capped(base, new);
            &&& r == (base + new).take(r.len() as int)
            &&& base.len() + new.len() <= 1024 ==> r.len() == base.len() + new.len()
            &&& base.len() + new.len() > 1024 ==> r.len() == 1024
        }),
{
    let r = model::append_capped(base, new);
    assert(r =~= (base + new).take(r.len() as int));
}

/// Subscriptions are added to a session once each, behind those it has.
pub proof fn law_subscriptions_merged(
    base: Seq<(Seq<char>, u8)>,
    new: Seq<(Seq<char>, u8)>,
    e: (Seq<char>, u8),
)
    ensures
        ({
            let r = model::merge_subs(base, new);
            &&& base.len() <= r.len()
            &&& r.take(base.len() as int) == base
            &&& r.contains(e) <==> base.contains(e) || new.contains(e)
            &&& base.no_duplicates() ==> r.no_duplicates()
        }),
    decreases new.len(),
{
    let r = model::merge_subs(base, new);
    if new.len() == 0 {
        assert(r.take(base.len() as int) =~= base);
    } else {
        let rest = new.drop_last();
        let last = new.last();
        let b = model::merge_subs(base, rest);
        law_subscriptions_merged(base, rest, e);
        law_subscriptions_merged(base, rest, last);
        assert(new.contains(e) <==> rest.contains(e) || e == last) by {
            assert(new[new.len() - 1] == last);
            if rest.contains(e) {
                let j = choose|j: int| 0 <= j < rest.len() && rest[j] == e;
                assert(new[j] == e);
            }
            if new.contains(e) && e != last {
                let j = choose|j: int| 0 <= j < new.len() && new[j] == e;
                assert(rest[j] == e);
            }
        }
        if !b.contains(last) {
            assert(r == b.push(last));
            assert(r[b.len() as int] == last);
            assert(r.take(base.len() as int) =~= b.take(base.len() as int));
            if b.contains(e) {
                let j = choose|j: int| 0 <= j < b.len() && b[j] == e;
                assert(r[j] == e);
            }
            if r.contains(e) && e != last {
                let j = choose|j: int| 0 <= j < r.len() && r[j] == e;
                assert(b[j] == e);
            }
        }
    }
}

/// The subscriptions of a session are taken up again as they are, by the
/// connection that came back.
pub proof fn law_subscriptions_restored(subs: Seq<(Seq<char>, u8)>, token: usize, i: int)
    requires
        0 <= i < subs.len(),
    ensures
        model::restored(subs, token).len() == subs.len(),
        model::restored(subs, token)[i].filter == subs[i].0,
        model::restored(subs, token)[i].qos == subs[i].1,
        model::restored(subs, token)[i].token == token,
{
}

/// The number of messages at QoS 1 or 2 in two lists is that in each, and a
/// single one counts if its QoS is above zero.
pub proof fn law_reliable_counted(
    a: Seq<(Seq<char>, Seq<u8>, u8)>,
    b: Seq<(Seq<char>, Seq<u8>, u8)>,
    e: (Seq<char>, Seq<u8>, u8),
)
    ensures
        reliable(Seq::empty()) == 0,
        reliable(seq![e]) == (if e.2 > 0 {
            1nat
        } else {
            0
        }),
        reliable(a + b) == reliable(a) + reliable(b),
    decreases a.len(),
{
    assert(seq![e].skip(1) =~= Seq::empty());
    assert(reliable(seq![e].skip(1)) == 0);
    if a.len() == 0 {
        assert(a + b =~= b);
    } else {
        assert((a + b).skip(1) =~= a.skip(1) + b);
        law_reliable_counted(a.skip(1), b, e);
    }
}

// ---- the order of things ----

/// A message is offered to the subscriptions one after the other, to each that
/// matches at the lower of the two QoS (`low`) and without the retain flag. One
/// whose client is gone is taken out; the last subscription takes its place and
/// has its turn.
pub proof fn law_served_in_order(
    m: BrokerModel,
    i: int,
    topic: Seq<char>,
    payload: Seq<u8>,
    qos: u8,
    now: u64,
    low: u8,
)
    requires
        0 <= i < m.subs.len(),
        low <= qos && low <= m.subs[i].qos,
        low == qos || low == m.subs[i].qos,
    ensures
        ({
            let r = model::fan_out(m, i, topic, payload, qos, now);
            let (m1, d) = model::deliver(m, m.subs[i].token, topic, payload, low, false, now);
            let next = model::fan_out(m1, i + 1, topic, payload, qos, now);
            let last = m.subs.len() - 1;
            let m2 = BrokerModel {
                subs: if i == last {
                    m.subs.take(last)
                } else {
                    m.subs.take(last).update(i, m.subs[last])
                },
                ..m1
            };
            let again = model::fan_out(m2, i, topic, payload, qos, now);
            &&& !filter_matches(m.subs[i].filter, topic) ==> r == model::fan_out(
                m,
                i + 1,
                topic,
                payload,
                qos,
                now,
            )
            &&& filter_matches(m.subs[i].filter, topic) ==> {
                &&& d is Sent ==> r == (next.0, next.1 + 1, next.2, next.3)
                &&& d is Dropped ==> r == (next.0, next.1, next.2 + 1, next.3)
                &&& d is Gone ==> r == (again.0, again.1, again.2, again.3 + 1)
            }
        }),
{
    law_lower_qos(qos, m.subs[i].qos);
    assert(model::min_qos(qos, m.subs[i].qos) == low);
    let (m1, d) = model::deliver(m, m.subs[i].token, topic, payload, low, false, now);
    let last = m.subs.len() - 1;
    let subs = if i == last {
        m.subs.take(last)
    } else {
        m.subs.take(last).update(i, m.subs[last])
    };
    law_deliver(m, m.subs[i].token, topic, payload, low, false, now);
    assert(model::swap_out(m1.subs, i) =~= subs);
}

/// Publishing serves all subscriptions, from the first on; behind the last there
/// is nothing to do. The retained messages and the sessions have no part in it.
pub proof fn law_published_to_all(
    m: BrokerModel,
    topic: Seq<char>,
    payload: Seq<u8>,
    qos: u8,
    retain: bool,
    now: u64,
    i: int,
)
    requires
        i >= m.subs.len(),
    ensures
        ({
            let (m2, sent, dropped) = model::publish(m, topic, payload, qos, retain, now);
            let m1 = BrokerModel { retained: m2.retained, ..m };
            let (r, n, lost, dead) = model::fan_out(m1, 0, topic, payload, qos, now);
            &&& m2.clients == r.clients
            &&& m2.subs == r.subs
            &&& sent == n
            &&& dropped == lost
            &&& dead == m.subs.len() - m2.subs.len()
            &&& qos == 0 ==> m2.leaving == r.leaving && m2.sessions == m.sessions
            &&& model::fan_out(m, i, topic, payload, qos, now) == (m, 0nat, 0nat, 0nat)
        }),
{
    let m1 = if retain {
        BrokerModel { retained: model::retain_message(m.retained, topic, payload, qos), ..m }
    } else {
        m
    };
    lemma_fan_out(m1, 0, topic, payload, qos, now);
    lemma_fan_out_frame(m1, 0, topic, payload, qos, now);
}

/// A retained message keeps its place while it is replaced, a new one goes to
/// the end, and clearing one closes the gap. `i` is the place of the topic, or
/// the number of messages if it has none.
pub proof fn law_retained_places(
    m: BrokerModel,
    topic: Seq<char>,
    payload: Seq<u8>,
    qos: u8,
    now: u64,
    i: int,
)
    requires
        0 <= i <= m.retained.len(),
        forall|j: int| 0 <= j < i ==> (#[trigger] m.retained[j]).0 != topic,
        i < m.retained.len() ==> m.retained[i].0 == topic,
    ensures
        ({
            let s = m.retained;
            let r = model::publish(m, topic, payload, qos, true, now).0.retained;
            &&& payload.len() > 0 && i < s.len() ==> r == s.take(i) + seq![(topic, payload, qos)]
                + s.skip(i + 1)
            &&& payload.len() > 0 && i == s.len() ==> r == s + seq![(topic, payload, qos)]
            &&& payload.len() == 0 && i < s.len() ==> r == s.take(i) + s.skip(i + 1)
            &&& payload.len() == 0 && i == s.len() ==> r == s
        }),
{
    let s = m.retained;
    let kept = model::retain_message(s, topic, payload, qos);
    lemma_retained_at(s, topic);
    assert(model::retained_at(s, topic) == i);
    lemma_fan_out(BrokerModel { retained: kept, ..m }, 0, topic, payload, qos, now);
    if payload.len() > 0 && i < s.len() {
        assert(kept =~= s.take(i) + seq![(topic, payload, qos)] + s.skip(i + 1));
    } else if payload.len() > 0 {
        assert(kept =~= s + seq![(topic, payload, qos)]);
    } else if i < s.len() {
        assert(kept =~= s.take(i) + s.skip(i + 1));
    }
}

/// A stored session keeps its place while it is replaced, a new one goes to the
/// end, and taking one out closes the gap. `i` is the place of the name, or the
/// number of sessions if it has none.
pub proof fn law_session_places(
    sessions: Seq<(Seq<char>, SessionModel)>,
    cid: Seq<char>,
    s: SessionModel,
    i: int,
)
    requires
        0 <= i <= sessions.len(),
        forall|j: int| 0 <= j < i ==> (#[trigger] sessions[j]).0 != cid,
        i < sessions.len() ==> sessions[i].0 == cid,
    ensures
        i < sessions.len() ==> {
            &&& model::session_of(sessions, cid) == Some(sessions[i].1)
            &&& model::with_session(sessions, cid, s) == sessions.take(i) + seq![(cid, s)]
                + sessions.skip(i + 1)
            &&& model::without_session(sessions, cid) == sessions.take(i) + sessions.skip(i + 1)
        },
        i == sessions.len() ==> {
            &&& model::session_of(sessions, cid) is None
            &&& model::with_session(sessions, cid, s) == sessions + seq![(cid, s)]
            &&& model::without_session(sessions, cid) == sessions
        },
{
    lemma_position(sessions, cid);
    assert(model::position(sessions, cid) == i);
    if i < sessions.len() {
        assert(model::with_session(sessions, cid, s) =~= sessions.take(i) + seq![(cid, s)]
            + sessions.skip(i + 1));
        assert(model::without_session(sessions, cid) =~= sessions.take(i) + sessions.skip(i + 1));
    } else {
        assert(model::with_session(sessions, cid, s) =~= sessions + seq![(cid, s)]);
    }
}

/// Subscriptions are added to a session one after the other, each at the end
/// unless it is there already.
pub proof fn law_merged_in_order(
    base: Seq<(Seq<char>, u8)>,
    a: Seq<(Seq<char>, u8)>,
    b: Seq<(Seq<char>, u8)>,
    e: (Seq<char>, u8),
)
    ensures
        model::merge_subs(base, Seq::empty()) == base,
        model::merge_subs(base, seq![e]) == (if base.contains(e) {
            base
        } else {
            base + seq![e]
        }),
        model::merge_subs(base, a + b) == model::merge_subs(model::merge_subs(base, a), b),
    decreases b.len(),
{
    assert(seq![e].drop_last() =~= Seq::empty());
    assert(model::merge_subs(base, seq![e].drop_last()) == base);
    assert(base.push(e) =~= base + seq![e]);
    if b.len() == 0 {
        assert(a + b =~= a);
    } else {
        law_merged_in_order(base, a, b.drop_last(), e);
        assert((a + b).drop_last() =~= a + b.drop_last());
        assert((a + b).last() == b.last());
    }
}

} // verus!
