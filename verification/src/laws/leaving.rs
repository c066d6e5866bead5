//! Laws of clients that are removed for being too slow: they leave as others
//! do.
use crate::laws::bounds::{distinct_ids, lemma_deliver, lemma_fan_out, lemma_position};
use crate::laws::publishing::{law_session_table, lemma_first_match_at};
use crate::laws::store::{
    lemma_first_match, lemma_offline_sessions, lemma_position_is, lemma_subs_of,
};
use crate::model;
use crate::model::{
    BrokerModel, ClientModel, Delivery, DepartureModel, SessionModel, SubModel, OFFLINE_CAP,
};
use crate::topic::filter_matches;
use crate::views::lemma_filter_has;
use vstd::prelude::*;

verus! {

// ---- all are seen to ----

proof fn lemma_deliver_departures(
    m: BrokerModel,
    token: usize,
    topic: Seq<char>,
    payload: Seq<u8>,
    qos: u8,
    retain: bool,
    now: u64,
)
    requires
        m.clients.dom().finite(),
    ensures
        ({
            let m2 = model::deliver(m, token, topic, payload, qos, retain, now).0;
            &&& m2.clients.dom().finite()
            &&& model::departures(m2) == model::departures(m)
        }),
{
    let m2 = model::deliver(m, token, topic, payload, qos, retain, now).0;
    if m.clients.contains_key(token) {
        if m2.clients.contains_key(token) {
            assert(m2.clients.dom() =~= m.clients.dom());
        } else {
            assert(m2.clients.dom() =~= m.clients.dom().remove(token));
        }
    }
}

proof fn lemma_fan_out_departures(
    m: BrokerModel,
    i: int,
    topic: Seq<char>,
    payload: Seq<u8>,
    qos: u8,
    now: u64,
)
    requires
        m.clients.dom().finite(),
    ensures
        ({
            let m2 = model::fan_out(m, i, topic, payload, qos, now).0;
            &&& m2.clients.dom().finite()
            &&& model::departures(m2) == model::departures(m)
        }),
    decreases m.subs.len() - i,
{
    if i < 0 || i >= m.subs.len() {
    } else if !filter_matches(m.subs[i].filter, topic) {
        lemma_fan_out_departures(m, i + 1, topic, payload, qos, now);
    } else {
        let sub = m.subs[i];
        let fwd = model::min_qos(qos, sub.qos);
        lemma_deliver_departures(m, sub.token, topic, payload, fwd, false, now);
        let (m2, d) = model::deliver(m, sub.token, topic, payload, fwd, false, now);
        match d {
            Delivery::Gone => {
                let m3 = BrokerModel { subs: model::swap_out(m2.subs, i), ..m2 };
                lemma_fan_out_departures(m3, i, topic, payload, qos, now);
            },
            _ => {
                lemma_fan_out_departures(m2, i + 1, topic, payload, qos, now);
            },
        }
    }
}

pub proof fn lemma_publish_departures(
    m: BrokerModel,
    topic: Seq<char>,
    payload: Seq<u8>,
    qos: u8,
    retain: bool,
    now: u64,
)
    requires
        m.clients.dom().finite(),
    ensures
        ({
            let m2 = model::publish(m, topic, payload, qos, retain, now).0;
            &&& m2.clients.dom().finite()
            &&& model::departures(m2) == model::departures(m)
        }),
{
    let m1 = if retain {
        BrokerModel { retained: model::retain_message(m.retained, topic, payload, qos), ..m }
    } else {
        m
    };
    lemma_fan_out_departures(m1, 0, topic, payload, qos, now);
}

pub proof fn lemma_settle_one(m: BrokerModel, now: u64)
    requires
        m.clients.dom().finite(),
        m.leaving.len() > 0,
    ensures
        model::settle_one(m, now).clients.dom().finite(),
        model::departures(model::settle_one(m, now)) + 1 == model::departures(m),
{
    let d = m.leaving[0];
    let m1 = BrokerModel {
        leaving: m.leaving.skip(1),
        subs: model::other_subs(m.subs, d.token),
        sessions: model::settle_one(
            BrokerModel {
                leaving: seq![model::DepartureModel { will_flag: false, ..d }],
                ..m
            },
            now,
        ).sessions,
        ..m
    };
    lemma_publish_departures(m1, d.will.0, d.will.1, d.will.2, d.will.3, now);
}

proof fn lemma_settle_some(m: BrokerModel, n: nat, now: u64)
    requires
        m.clients.dom().finite(),
        model::departures(m) <= n,
    ensures
        model::settle_some(m, n, now).leaving.len() == 0,
    decreases n,
{
    if m.leaving.len() > 0 {
        lemma_settle_one(m, now);
        lemma_settle_some(model::settle_one(m, now), (n - 1) as nat, now);
    }
}

/// No departure is left open.
pub proof fn law_settled(m: BrokerModel, now: u64)
    requires
        m.clients.dom().finite(),
    ensures
        model::settle(m, now).leaving.len() == 0,
{
    lemma_settle_some(m, model::departures(m), now);
}

// ---- leaving as others do ----

/// The state after client `token` was found too slow.
pub open spec fn dropped(m: BrokerModel, token: usize) -> BrokerModel {
    BrokerModel {
        clients: m.clients.remove(token),
        leaving: m.leaving.push(model::departure(m, token)),
        ..m
    }
}

/// A client that cannot take a QoS 1 or 2 message is removed and its departure
/// noted; nothing else changes.
pub proof fn law_too_slow_is_dropped(
    m: BrokerModel,
    token: usize,
    topic: Seq<char>,
    payload: Seq<u8>,
    qos: u8,
    retain: bool,
    now: u64,
)
    requires
        m.clients.contains_key(token),
        model::accept(m.clients[token], topic, payload, qos, retain, now) is TooSlow,
    ensures
        model::deliver(m, token, topic, payload, qos, retain, now) == (
            dropped(m, token),
            Delivery::Gone,
        ),
{
}

/// Client `token` without a last will.
pub open spec fn without_will(m: BrokerModel, token: usize) -> BrokerModel {
    model::put_client(m, token, ClientModel { will_flag: false, ..m.clients[token] })
}

/// A client that was too slow leaves as any other: once its departure has been
/// seen to, the broker is as if the client had been removed, its session stored
/// and its subscriptions taken out; and then its will has been published, unless
/// it has none or said goodbye.
pub proof fn law_too_slow_leaves(m: BrokerModel, token: usize, now: u64)
    requires
        m.clients.contains_key(token),
        m.leaving.len() == 0,
    ensures
        ({
            let c = m.clients[token];
            let gone = model::remove(without_will(m, token), token, now);
            model::settle_one(dropped(m, token), now) == (if c.will_flag && !c.clean_disconnect {
                model::publish(
                    gone,
                    c.will_topic,
                    c.will_message,
                    c.will_qos,
                    c.will_retain,
                    now,
                ).0
            } else {
                gone
            })
        }),
{
    let c = m.clients[token];
    let quiet = without_will(m, token);
    let gone = model::remove(quiet, token, now);
    let d = model::departure(m, token);
    let m0 = dropped(m, token);
    assert(m0.leaving[0] == d);
    assert(m0.leaving.skip(1) =~= m.leaving);
    assert(model::will_done(m.leaving, token) =~= m.leaving);
    assert(model::publish_will(quiet, token, now) == quiet);
    assert(quiet.clients[token].client_id == c.client_id);
    assert(model::taken_along(quiet, token) == model::taken_along(m, token));
    assert(quiet.clients.remove(token) =~= m.clients.remove(token));
    let m1 = BrokerModel {
        leaving: m0.leaving.skip(1),
        subs: model::other_subs(m0.subs, d.token),
        sessions: if d.keep {
            model::with_session(
                m0.sessions,
                d.client_id,
                model::merged_session(m0.sessions, d.client_id, d.session),
            )
        } else {
            m0.sessions
        },
        ..m0
    };
    assert(m1 =~= gone);
}

/// The session of a client that was too slow is stored, added to what was
/// stored before under its name.
pub proof fn law_too_slow_session_stored(m: BrokerModel, now: u64)
    requires
        m.leaving.len() > 0,
        m.leaving[0].keep,
    ensures
        ({
            let d = m.leaving[0];
            let merged = model::merged_session(m.sessions, d.client_id, d.session);
            &&& model::session_of(model::settle_one(m, now).sessions, d.client_id) matches Some(s)
            &&& s.subs == merged.subs
            &&& merged.offline.is_prefix_of(s.offline)
        }),
{
    let d = m.leaving[0];
    let merged = model::merged_session(m.sessions, d.client_id, d.session);
    let m1 = BrokerModel {
        leaving: m.leaving.skip(1),
        subs: model::other_subs(m.subs, d.token),
        sessions: model::with_session(m.sessions, d.client_id, merged),
        ..m
    };
    lemma_position(m.sessions, d.client_id);
    lemma_position_is(
        m1.sessions,
        d.client_id,
        model::position(m.sessions, d.client_id) as int,
    );
    assert(model::session_of(m1.sessions, d.client_id) == Some(merged));
    if d.will_flag {
        let m2 = if d.will.3 {
            BrokerModel {
                retained: model::retain_message(m1.retained, d.will.0, d.will.1, d.will.2),
                ..m1
            }
        } else {
            m1
        };
        lemma_fan_out(m2, 0, d.will.0, d.will.1, d.will.2, now);
        lemma_offline_sessions(m1.sessions, d.will.0, d.will.1, d.will.2, d.client_id);
    }
}

// ---- the message it was too slow for ----

/// A departure of client `token`, as `c` was when the message came.
pub open spec fn departs_as(d: DepartureModel, token: usize, c: ClientModel) -> bool {
    &&& d.token == token
    &&& d.client_id == c.client_id
    &&& d.keep <==> !c.clean_session && c.client_id.len() > 0
    &&& d.will_flag == (c.will_flag && !c.clean_disconnect)
    &&& d.will == (c.will_topic, c.will_message, c.will_qos, c.will_retain)
}

proof fn lemma_fan_out_departs(
    m: BrokerModel,
    i: int,
    topic: Seq<char>,
    payload: Seq<u8>,
    qos: u8,
    now: u64,
    token: usize,
) -> (k: int)
    requires
        m.clients.contains_key(token),
        !model::fan_out(m, i, topic, payload, qos, now).0.clients.contains_key(token),
    ensures
        ({
            let m2 = model::fan_out(m, i, topic, payload, qos, now).0;
            &&& m.leaving.len() <= k < m2.leaving.len()
            &&& departs_as(m2.leaving[k], token, m.clients[token])
            &&& m2.leaving[k].keep ==> model::first_match(
                m2.leaving[k].session.subs,
                topic,
            ) is Some
            &&& qos > 0
        }),
    decreases m.subs.len() - i,
{
    if i < 0 || i >= m.subs.len() {
        0
    } else if !filter_matches(m.subs[i].filter, topic) {
        lemma_fan_out_departs(m, i + 1, topic, payload, qos, now, token)
    } else {
        let sub = m.subs[i];
        let fwd = model::min_qos(qos, sub.qos);
        lemma_deliver(m, sub.token, topic, payload, fwd, false, now);
        let (m2, d) = model::deliver(m, sub.token, topic, payload, fwd, false, now);
        match d {
            Delivery::Gone => {
                let m3 = BrokerModel { subs: model::swap_out(m2.subs, i), ..m2 };
                if sub.token == token {
                    lemma_fan_out_extends(m3, i, topic, payload, qos, now);
                    assert(m.subs.contains(sub));
                    lemma_subs_of(m.subs, sub);
                    lemma_first_match(
                        model::subs_of(m.subs, token),
                        topic,
                        (sub.filter, sub.qos),
                    );
                    assert(m3.leaving.last() == model::departure(m, token));
                    m.leaving.len() as int
                } else {
                    lemma_fan_out_departs(m3, i, topic, payload, qos, now, token)
                }
            },
            _ => lemma_fan_out_departs(m2, i + 1, topic, payload, qos, now, token),
        }
    }
}

proof fn lemma_fan_out_extends(
    m: BrokerModel,
    i: int,
    topic: Seq<char>,
    payload: Seq<u8>,
    qos: u8,
    now: u64,
)
    ensures
        m.leaving.is_prefix_of(model::fan_out(m, i, topic, payload, qos, now).0.leaving),
    decreases m.subs.len() - i,
{
    if i < 0 || i >= m.subs.len() {
        assert(m.leaving.subrange(0, m.leaving.len() as int) =~= m.leaving);
    } else if !filter_matches(m.subs[i].filter, topic) {
        lemma_fan_out_extends(m, i + 1, topic, payload, qos, now);
    } else {
        let sub = m.subs[i];
        let fwd = model::min_qos(qos, sub.qos);
        let (m2, d) = model::deliver(m, sub.token, topic, payload, fwd, false, now);
        let m3 = BrokerModel { subs: model::swap_out(m2.subs, i), ..m2 };
        let rest = match d {
            Delivery::Gone => {
                lemma_fan_out_extends(m3, i, topic, payload, qos, now);
                model::fan_out(m3, i, topic, payload, qos, now).0.leaving
            },
            _ => {
                lemma_fan_out_extends(m2, i + 1, topic, payload, qos, now);
                model::fan_out(m2, i + 1, topic, payload, qos, now).0.leaving
            },
        };
        assert forall|j: int| 0 <= j < m.leaving.len() implies m.leaving[j] == rest[j] by {
            assert(m2.leaving[j] == m.leaving[j]);
            assert(rest.subrange(0, m2.leaving.len() as int)[j] == m2.leaving[j]);
        }
        assert(rest.subrange(0, m.leaving.len() as int) =~= m.leaving);
    }
}

/// A client that is lost to a message departs with the will and the name it
/// had; and if it wants its session kept, the message it was too slow for is
/// the last in that session, as long as there is room.
pub proof fn law_too_slow_message_kept(
    m: BrokerModel,
    topic: Seq<char>,
    payload: Seq<u8>,
    qos: u8,
    retain: bool,
    now: u64,
    token: usize,
) -> (k: int)
    requires
        m.clients.contains_key(token),
        !model::publish(m, topic, payload, qos, retain, now).0.clients.contains_key(token),
    ensures
        ({
            let m2 = model::publish(m, topic, payload, qos, retain, now).0;
            let d = m2.leaving[k];
            &&& m.leaving.len() <= k < m2.leaving.len()
            &&& departs_as(d, token, m.clients[token])
            &&& d.keep && d.session.offline.len() < OFFLINE_CAP ==> d.session.offline.len() > 0
                && d.session.offline.last().0 == topic && d.session.offline.last().1 == payload
        }),
{
    let m1 = if retain {
        BrokerModel { retained: model::retain_message(m.retained, topic, payload, qos), ..m }
    } else {
        m
    };
    lemma_fan_out_departs(m1, 0, topic, payload, qos, now, token)
}

// ---- one after the other ----

/// Departures are seen to one after the other until none is left.
pub proof fn law_settled_in_order(m: BrokerModel, now: u64)
    requires
        m.clients.dom().finite(),
    ensures
        m.leaving.len() == 0 ==> model::settle(m, now) == m,
        m.leaving.len() > 0 ==> model::settle(m, now) == model::settle(
            model::settle_one(m, now),
            now,
        ),
{
    if m.leaving.len() > 0 {
        lemma_settle_one(m, now);
    }
}

/// The first departure without a will to be published: it is taken off the
/// list, its client's subscriptions are taken out, its session is stored if it
/// is to be kept, and nothing else changes. With a will, that is then published.
pub proof fn law_departure_seen_to(m: BrokerModel, now: u64, e: (Seq<char>, SessionModel))
    requires
        m.leaving.len() > 0,
        distinct_ids(m.sessions),
    ensures
        ({
            let d = m.leaving[0];
            let quiet = BrokerModel {
                leaving: m.leaving.update(0, DepartureModel { will_flag: false, ..d }),
                ..m
            };
            let m1 = model::settle_one(quiet, now);
            &&& m1.leaving == m.leaving.skip(1)
            &&& forall|i: int| 0 <= i < m1.subs.len() ==> (#[trigger] m1.subs[i]).token != d.token
            &&& forall|i: int|
                0 <= i < m.subs.len() && (#[trigger] m.subs[i]).token != d.token
                    ==> m1.subs.contains(m.subs[i])
            &&& !d.keep ==> m1.sessions == m.sessions
            &&& e.0 != d.client_id ==> (m1.sessions.contains(e) <==> m.sessions.contains(e))
            &&& m1 == (BrokerModel {
                leaving: m1.leaving,
                subs: m1.subs,
                sessions: m1.sessions,
                ..m
            })
            &&& model::settle_one(m, now) == (if d.will_flag {
                model::publish(m1, d.will.0, d.will.1, d.will.2, d.will.3, now).0
            } else {
                m1
            })
        }),
{
    let d = m.leaving[0];
    let quiet = BrokerModel {
        leaving: m.leaving.update(0, DepartureModel { will_flag: false, ..d }),
        ..m
    };
    let m1 = model::settle_one(quiet, now);
    assert(quiet.leaving.skip(1) =~= m.leaving.skip(1));
    let keep = |x: SubModel| x.token != d.token;
    assert(m1.subs == m.subs.filter(keep));
    assert forall|i: int| 0 <= i < m1.subs.len() implies (#[trigger] m1.subs[i]).token
        != d.token by {
        assert(m1.subs.contains(m1.subs[i]));
        lemma_filter_has(m.subs, keep, m1.subs[i]);
    }
    assert forall|i: int|
        0 <= i < m.subs.len() && (#[trigger] m.subs[i]).token != d.token implies m1.subs.contains(
        m.subs[i],
    ) by {
        assert(m.subs.contains(m.subs[i]));
        lemma_filter_has(m.subs, keep, m.subs[i]);
    }
    law_session_table(
        m.sessions,
        d.client_id,
        model::merged_session(m.sessions, d.client_id, d.session),
        e,
    );
}

/// When a will has been published, only that of the client it belongs to is no
/// longer due; and likewise for a session that is still stored.
pub proof fn law_departures_marked(leaving: Seq<DepartureModel>, token: usize, i: int)
    requires
        0 <= i < leaving.len(),
    ensures
        ({
            let w = model::will_done(leaving, token);
            let s = model::session_done(leaving, token);
            let d = leaving[i];
            &&& w.len() == leaving.len() && s.len() == leaving.len()
            &&& d.token == token ==> !w[i].will_flag && w[i] == (DepartureModel {
                will_flag: w[i].will_flag,
                ..d
            })
            &&& d.token == token ==> !s[i].keep && s[i] == (DepartureModel { keep: s[i].keep, ..d })
            &&& d.token != token ==> w[i] == d && s[i] == d
        }),
{
}

/// A session that is still to be stored takes messages as a stored one does:
/// `k` is the place of the first subscription that matches, or their number if
/// none does.
pub proof fn law_departing_session_takes_messages(
    leaving: Seq<DepartureModel>,
    topic: Seq<char>,
    payload: Seq<u8>,
    qos: u8,
    i: int,
    k: int,
)
    requires
        0 <= i < leaving.len(),
        0 <= k <= leaving[i].session.subs.len(),
        forall|j: int|
            0 <= j < k ==> !filter_matches((#[trigger] leaving[i].session.subs[j]).0, topic),
        k < leaving[i].session.subs.len() ==> filter_matches(
            leaving[i].session.subs[k].0,
            topic,
        ),
    ensures
        ({
            let r = model::offline_leaving(leaving, topic, payload, qos);
            let (d, d2) = (leaving[i], r[i]);
            &&& r.len() == leaving.len()
            &&& d2 == (DepartureModel { session: d2.session, ..d })
            &&& d2.session.subs == d.session.subs
            &&& d.keep && k < d.session.subs.len() && d.session.offline.len() < 1024 ==> {
                &&& d2.session.offline.drop_last() == d.session.offline
                &&& d2.session.offline.len() == d.session.offline.len() + 1
                &&& d2.session.offline.last().0 == topic
                &&& d2.session.offline.last().1 == payload
                &&& d2.session.offline.last().2 == model::min_qos(qos, d.session.subs[k].1)
            }
            &&& !d.keep || k == d.session.subs.len() || d.session.offline.len() >= 1024 ==> d2 == d
        }),
{
    let d = leaving[i];
    let r = model::offline_leaving(leaving, topic, payload, qos);
    lemma_first_match_at(d.session.subs, topic, k);
    if d.keep && k < d.session.subs.len() && d.session.offline.len() < 1024 {
        assert(r[i].session.offline.drop_last() =~= d.session.offline);
    }
}

/// A client with a will that is lost is removed as one without, after the will
/// has been published: its session holds what it was sent of that too.
pub proof fn law_removed_after_will(m: BrokerModel, token: usize, now: u64)
    requires
        m.clients.contains_key(token),
        m.clients[token].will_flag,
        !m.clients[token].clean_disconnect,
        ({
            let c = m.clients[token];
            model::publish(
                m,
                c.will_topic,
                c.will_message,
                c.will_qos,
                c.will_retain,
                now,
            ).0.clients.contains_key(token)
        }),
    ensures
        ({
            let c = m.clients[token];
            let p = model::publish(
                m,
                c.will_topic,
                c.will_message,
                c.will_qos,
                c.will_retain,
                now,
            ).0;
            model::remove(m, token, now) == model::remove(without_will(p, token), token, now)
        }),
{
    let c = m.clients[token];
    let p = model::publish(m, c.will_topic, c.will_message, c.will_qos, c.will_retain, now).0;
    crate::laws::bounds::law_publish_bounded(
        m,
        c.will_topic,
        c.will_message,
        c.will_qos,
        c.will_retain,
        now,
    );
    let quiet = without_will(p, token);
    assert(model::publish_will(quiet, token, now) == quiet);
    assert(model::taken_along(quiet, token) == model::taken_along(p, token));
    assert(quiet.clients.remove(token) =~= p.clients.remove(token));
}

} // verus!
