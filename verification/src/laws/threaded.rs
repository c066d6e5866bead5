//! Laws of the threaded broker's table.
use crate::bytes::be16;
use crate::laws::format::law_id_packet_bytes;
use crate::laws::packets::{lemma_filter_one, lemma_filter_sum};
use crate::model::SubModel;
use crate::packet::{field_at, framed, publish_of, subscribe_of, unsubscribe_of};
use crate::text::text_of;
use crate::threaded::{
    asked, connect_of, on_packet, rem_step, settled, targets_of, without, ActionModel, ConnModel,
    RemStep, SendOutcome, TableModel,
};
use crate::topic::filter_matches;
use crate::views::lemma_filter_has;
use vstd::prelude::*;

verus! {

/// Every target is accounted for: served, passed over because its channel was
/// full, or found gone; and only those of the last kind lose their
/// subscription.
pub proof fn law_every_target_counted(
    subs: Seq<SubModel>,
    topic: Seq<char>,
    outcomes: Seq<SendOutcome>,
)
    requires
        outcomes.len() == targets_of(subs, topic).len(),
    ensures
        ({
            let (kept, sent, lost, dead) = settled(subs, topic, outcomes);
            &&& sent + lost + dead == outcomes.len()
            &&& kept.len() + dead == subs.len()
        }),
    decreases subs.len(),
{
    if subs.len() > 0 {
        if filter_matches(subs.last().filter, topic) {
            law_every_target_counted(subs.drop_last(), topic, outcomes.drop_last());
        } else {
            law_every_target_counted(subs.drop_last(), topic, outcomes);
        }
    }
}

/// A slow subscriber keeps its subscription: as long as nobody is gone, the
/// table stays as it is.
pub proof fn law_full_channels_stay(
    subs: Seq<SubModel>,
    topic: Seq<char>,
    outcomes: Seq<SendOutcome>,
)
    requires
        outcomes.len() == targets_of(subs, topic).len(),
        forall|i: int| 0 <= i < outcomes.len() ==> (#[trigger] outcomes[i]) !is Disconnected,
    ensures
        settled(subs, topic, outcomes).0 == subs,
    decreases subs.len(),
{
    if subs.len() > 0 {
        let rest = subs.drop_last();
        assert(subs =~= rest.push(subs.last()));
        if filter_matches(subs.last().filter, topic) {
            let before = outcomes.drop_last();
            assert(outcomes[outcomes.len() - 1] == outcomes.last());
            assert forall|i: int| 0 <= i < before.len() implies (
            #[trigger] before[i]) !is Disconnected by {
                assert(before[i] == outcomes[i]);
            }
            law_full_channels_stay(rest, topic, before);
        } else {
            law_full_channels_stay(rest, topic, outcomes);
        }
    } else {
        assert(settled(subs, topic, outcomes).0 =~= subs);
    }
}

/// Subscriptions that do not match a topic are not touched by a message on it.
pub proof fn law_others_untouched(
    subs: Seq<SubModel>,
    topic: Seq<char>,
    outcomes: Seq<SendOutcome>,
    sub: SubModel,
)
    requires
        subs.contains(sub),
        !filter_matches(sub.filter, topic),
    ensures
        settled(subs, topic, outcomes).0.contains(sub),
    decreases subs.len(),
{
    let k = choose|k: int| 0 <= k < subs.len() && subs[k] == sub;
    let rest = subs.drop_last();
    let kept = settled(subs, topic, outcomes).0;
    if subs.last() == sub {
        assert(kept[kept.len() - 1] == sub);
    } else {
        assert(rest[k] == sub);
        let used = if filter_matches(subs.last().filter, topic) {
            outcomes.drop_last()
        } else {
            outcomes
        };
        law_others_untouched(rest, topic, used, sub);
        let before = settled(rest, topic, used).0;
        let j = choose|j: int| 0 <= j < before.len() && before[j] == sub;
        assert(kept[j] == sub);
    }
}

/// A client is a target exactly if one of its subscriptions matches.
pub proof fn law_targets_match(subs: Seq<SubModel>, topic: Seq<char>, token: usize)
    ensures
        targets_of(subs, topic).contains(token) <==> exists|i: int|
            0 <= i < subs.len() && (#[trigger] subs[i]).token == token && filter_matches(
                subs[i].filter,
                topic,
            ),
    decreases subs.len(),
{
    let r = targets_of(subs, topic);
    if subs.len() > 0 {
        let rest = subs.drop_last();
        let before = targets_of(rest, topic);
        law_targets_match(rest, topic, token);
        if before.contains(token) {
            let j = choose|j: int| 0 <= j < before.len() && before[j] == token;
            assert(r[j] == token);
            let i = choose|i: int|
                0 <= i < rest.len() && (#[trigger] rest[i]).token == token && filter_matches(
                    rest[i].filter,
                    topic,
                );
            assert(subs[i].token == token);
        }
        if filter_matches(subs.last().filter, topic) && subs.last().token == token {
            assert(r[r.len() - 1] == token);
            assert(subs[subs.len() - 1].token == token);
        }
        if r.contains(token) && !before.contains(token) {
            let j = choose|j: int| 0 <= j < r.len() && r[j] == token;
            if j < before.len() {
                assert(before[j] == token);
            }
        }
        if exists|i: int|
            0 <= i < subs.len() && (#[trigger] subs[i]).token == token && filter_matches(
                subs[i].filter,
                topic,
            ) {
            let i = choose|i: int|
                0 <= i < subs.len() && (#[trigger] subs[i]).token == token && filter_matches(
                    subs[i].filter,
                    topic,
                );
            if i < rest.len() {
                assert(rest[i].token == token);
            }
        }
    }
}

/// A client that has left has no subscription any more, and the others keep
/// theirs.
pub proof fn law_left_without_trace(subs: Seq<SubModel>, token: usize, sub: SubModel)
    ensures
        subs.filter(|s: SubModel| s.token != token).contains(sub) <==> subs.contains(sub)
            && sub.token != token,
{
    lemma_filter_has(subs, |s: SubModel| s.token != token, sub);
}

// ---- lists, part by part ----

/// The targets among two tables one behind the other are those of the first and
/// then those of the second.
pub proof fn law_targets_in_order(
    a: Seq<SubModel>,
    b: Seq<SubModel>,
    sub: SubModel,
    topic: Seq<char>,
)
    ensures
        targets_of(Seq::empty(), topic) == Seq::<usize>::empty(),
        targets_of(seq![sub], topic) == (if filter_matches(sub.filter, topic) {
            seq![sub.token]
        } else {
            seq![]
        }),
        targets_of(a + b, topic) == targets_of(a, topic) + targets_of(b, topic),
    decreases b.len(),
{
    let one = seq![sub];
    assert(one.drop_last() =~= Seq::empty());
    assert(targets_of(one.drop_last(), topic) == Seq::<usize>::empty());
    if b.len() == 0 {
        assert(a + b =~= a);
        assert(targets_of(a + b, topic) =~= targets_of(a, topic) + targets_of(b, topic));
    } else {
        assert((a + b).drop_last() =~= a + b.drop_last());
        law_targets_in_order(a, b.drop_last(), sub, topic);
        assert(targets_of(a + b, topic) =~= targets_of(a, topic) + targets_of(b, topic));
    }
}

/// What becomes of one subscription: if it does not match it stays; if it does,
/// it stays unless its client is gone, and one message is counted.
pub proof fn law_one_settled(sub: SubModel, topic: Seq<char>, outcome: SendOutcome)
    ensures
        !filter_matches(sub.filter, topic) ==> settled(seq![sub], topic, Seq::empty()) == (
            seq![sub],
            0nat,
            0nat,
            0nat,
        ),
        filter_matches(sub.filter, topic) ==> settled(seq![sub], topic, seq![outcome]) == (
            if outcome is Disconnected {
                Seq::empty()
            } else {
                seq![sub]
            },
            if outcome is Sent {
                1nat
            } else {
                0
            },
            if outcome is Full {
                1nat
            } else {
                0
            },
            if outcome is Disconnected {
                1nat
            } else {
                0
            },
        ),
{
    let one = seq![sub];
    assert(one.drop_last() =~= Seq::empty());
    let none = (Seq::<SubModel>::empty(), 0nat, 0nat, 0nat);
    assert(settled(one.drop_last(), topic, Seq::empty()) == none);
    assert(settled(one.drop_last(), topic, seq![outcome].drop_last()) == none);
    assert(Seq::<SubModel>::empty().push(sub) =~= one);
}

/// What becomes of two tables one behind the other is what becomes of each.
pub proof fn law_settled_in_parts(
    a: Seq<SubModel>,
    b: Seq<SubModel>,
    topic: Seq<char>,
    for_a: Seq<SendOutcome>,
    for_b: Seq<SendOutcome>,
)
    requires
        for_a.len() == targets_of(a, topic).len(),
        for_b.len() == targets_of(b, topic).len(),
    ensures
        ({
            let (x, y) = (settled(a, topic, for_a), settled(b, topic, for_b));
            settled(a + b, topic, for_a + for_b) == (
                x.0 + y.0,
                x.1 + y.1,
                x.2 + y.2,
                x.3 + y.3,
            )
        }),
    decreases b.len(),
{
    let (x, y) = (settled(a, topic, for_a), settled(b, topic, for_b));
    if b.len() == 0 {
        assert(a + b =~= a);
        assert(for_a + for_b =~= for_a);
        assert(x.0 + y.0 =~= x.0);
    } else {
        let rest = b.drop_last();
        assert((a + b).drop_last() =~= a + rest);
        assert((a + b).last() == b.last());
        if filter_matches(b.last().filter, topic) {
            assert((for_a + for_b).drop_last() =~= for_a + for_b.drop_last());
            assert((for_a + for_b).last() == for_b.last());
            law_settled_in_parts(a, rest, topic, for_a, for_b.drop_last());
            let z = settled(rest, topic, for_b.drop_last());
            assert((x.0 + z.0).push(b.last()) =~= x.0 + z.0.push(b.last()));
        } else {
            law_settled_in_parts(a, rest, topic, for_a, for_b);
            let z = settled(rest, topic, for_b);
            assert((x.0 + z.0).push(b.last()) =~= x.0 + z.0.push(b.last()));
        }
    }
}

/// Every filter that is asked for becomes a subscription, in order.
pub proof fn law_asked(topics: Seq<(Seq<char>, u8)>, token: usize, i: int)
    ensures
        asked(topics, token).len() == topics.len(),
        0 <= i < topics.len() ==> {
            let s = asked(topics, token)[i];
            s.filter == topics[i].0 && s.qos == topics[i].1 && s.token == token
        },
{
}

/// Unsubscribing takes out the client's subscriptions to the filters named, and
/// leaves the rest as it stands.
pub proof fn law_taken_out(
    a: Seq<SubModel>,
    b: Seq<SubModel>,
    sub: SubModel,
    filters: Seq<Seq<char>>,
    token: usize,
)
    ensures
        without(Seq::empty(), filters, token) == Seq::<SubModel>::empty(),
        without(seq![sub], filters, token) == (if sub.token == token && filters.contains(
            sub.filter,
        ) {
            seq![]
        } else {
            seq![sub]
        }),
        without(a + b, filters, token) == without(a, filters, token) + without(
            b,
            filters,
            token,
        ),
    decreases filters.len(),
{
    if filters.len() > 0 {
        let (rest, last) = (filters.drop_last(), filters.last());
        law_taken_out(a, b, sub, rest, token);
        let keep = |s: SubModel| !(s.filter == last && s.token == token);
        lemma_filter_sum(without(a, rest, token), without(b, rest, token), keep);
        lemma_filter_one(sub, keep);
        assert(Seq::<SubModel>::empty().filter(keep) =~= Seq::empty()) by {
            reveal(Seq::filter);
        }
        assert(filters[filters.len() - 1] == last);
        assert(filters.contains(sub.filter) <==> rest.contains(sub.filter) || last
            == sub.filter) by {
            if filters.contains(sub.filter) {
                let i = choose|i: int| 0 <= i < filters.len() && filters[i] == sub.filter;
                assert(i < rest.len() ==> rest[i] == sub.filter);
            }
            if rest.contains(sub.filter) {
                let i = choose|i: int| 0 <= i < rest.len() && rest[i] == sub.filter;
                assert(filters[i] == sub.filter);
            }
        }
    }
}

// ---- reading a packet ----

/// The lowest seven bits of each byte of a length count at its weight, and the
/// top bit says whether another follows, with a weight 128 times as large.
pub proof fn law_length_step(rem: usize, mult: usize, b: u8)
    requires
        rem + (b % 128) * mult <= usize::MAX,
        b >= 128 ==> mult * 128 <= usize::MAX,
    ensures
        b < 128 ==> rem_step(rem, mult, b) == RemStep::Done((rem + b * mult) as usize),
        b >= 128 ==> rem_step(rem, mult, b) == (RemStep::More {
            rem: (rem + (b - 128) * mult) as usize,
            mult: (mult * 128) as usize,
        }),
{
    assert(0 <= (b % 128) * mult) by (nonlinear_arith)
        requires
            0 <= b % 128,
            0 <= mult,
    ;
    assert(((b % 128) * mult) % (usize::MAX + 1) == (b % 128) * mult);
    assert((rem + (b % 128) * mult) % (usize::MAX + 1) == rem + (b % 128) * mult);
}

/// A CONNECT of at least ten bytes tells the keepalive and the client id, if
/// that is there in full; a shorter one tells nothing.
pub proof fn law_threaded_connect_read(body: Seq<u8>)
    ensures
        ({
            let p = 256 * body[0] + body[1];
            &&& body.len() < 10 || body.len() < 8 + p ==> connect_of(body) is None
            &&& body.len() >= 10 && body.len() >= 8 + p ==> match field_at(body, 6 + p) {
                None => connect_of(body) is None,
                Some((cid, _)) => connect_of(body) == Some(
                    (text_of(cid), (256 * body[4 + p] + body[5 + p]) as u16),
                ),
            }
        }),
{
}

/// The answers by packet type: 1 CONNECT, 8 SUBSCRIBE, 10 UNSUBSCRIBE,
/// 3 PUBLISH, 12 PINGREQ. A packet of these types that does not read, and any
/// other type, closes the connection and changes nothing.
pub proof fn law_threaded_answers(
    t: TableModel,
    conn: ConnModel,
    ptype: u8,
    flags: u8,
    body: Seq<u8>,
)
    ensures
        ({
            let (t2, conn2, action) = on_packet(t, conn, ptype, flags, body);
            let reads = match ptype {
                1u8 => connect_of(body) is Some,
                8u8 => subscribe_of(body) is Some,
                10u8 => unsubscribe_of(body) is Some,
                3u8 => publish_of(flags, body) is Some,
                _ => ptype == 12,
            };
            &&& !reads ==> action is Close && t2 == t && conn2 == conn
            &&& reads && (ptype == 1 || ptype == 8 || ptype == 10 || ptype == 12)
                ==> action is Reply
            &&& reads && ptype == 3 ==> action is Publish && t2 == t
            &&& ptype != 1 ==> conn2 == conn && t2.client_ids == t.client_ids
            &&& ptype != 8 && ptype != 10 ==> t2.subs == t.subs
            &&& t2.drops == t.drops && t2.dead_subs == t.dead_subs && conn2.token == conn.token
        }),
{
}

/// A CONNECT is accepted: its name is noted, and CONNACK says so.
pub proof fn law_threaded_connect(t: TableModel, conn: ConnModel, flags: u8, body: Seq<u8>)
    requires
        connect_of(body) is Some,
    ensures
        ({
            let (t2, conn2, action) = on_packet(t, conn, 1, flags, body);
            let (cid, keepalive) = connect_of(body).unwrap();
            &&& action == ActionModel::Reply(seq![32u8, 2, 0, 0])
            &&& t2.client_ids == t.client_ids + seq![cid]
            &&& conn2.client_id == cid
            &&& conn2.keepalive == keepalive
        }),
{
    let (cid, _) = connect_of(body).unwrap();
    assert(t.client_ids.push(cid) =~= t.client_ids + seq![cid]);
}

/// A SUBSCRIBE adds its subscriptions behind those there are, and SUBACK grants
/// each the QoS that it asked for.
pub proof fn law_threaded_subscribe(
    t: TableModel,
    conn: ConnModel,
    flags: u8,
    body: Seq<u8>,
    granted: Seq<u8>,
)
    requires
        subscribe_of(body) is Some,
        granted.len() == subscribe_of(body).unwrap().1.len(),
        forall|i: int|
            0 <= i < granted.len() ==> #[trigger] granted[i] == subscribe_of(body).unwrap().1[i].1,
    ensures
        ({
            let (t2, _, action) = on_packet(t, conn, 8, flags, body);
            let (pid, topics) = subscribe_of(body).unwrap();
            &&& action == ActionModel::Reply(framed(144, be16(pid) + granted))
            &&& t2.subs == t.subs + asked(topics, conn.token)
        }),
{
    assert(crate::model::grants(subscribe_of(body).unwrap().1) =~= granted);
}

/// An UNSUBSCRIBE takes its filters out and is answered by UNSUBACK.
pub proof fn law_threaded_unsubscribe(t: TableModel, conn: ConnModel, flags: u8, body: Seq<u8>)
    requires
        unsubscribe_of(body) is Some,
    ensures
        ({
            let (t2, _, action) = on_packet(t, conn, 10, flags, body);
            let (pid, filters) = unsubscribe_of(body).unwrap();
            &&& action == ActionModel::Reply(
                seq![176u8, 2, (pid / 256) as u8, (pid % 256) as u8],
            )
            &&& t2.subs == without(t.subs, filters, conn.token)
        }),
{
    law_id_packet_bytes(0xB0, unsubscribe_of(body).unwrap().0);
}

/// A PUBLISH is handed on, acknowledged at QoS 1 and not otherwise; PINGREQ is
/// answered by PINGRESP.
pub proof fn law_threaded_publish(t: TableModel, conn: ConnModel, flags: u8, body: Seq<u8>)
    ensures
        on_packet(t, conn, 12, flags, body).2 == ActionModel::Reply(seq![208u8, 0]),
        publish_of(flags, body) is Some ==> {
            let (topic, qos, pid, payload, _) = publish_of(flags, body).unwrap();
            &&& on_packet(t, conn, 3, flags, body).2 matches ActionModel::Publish {
                ack,
                topic: to,
                payload: what,
            }
            &&& to == topic
            &&& what == payload
            &&& qos != 1 || pid is None ==> ack is None
            &&& qos == 1 && pid is Some ==> ack == Some(
                seq![64u8, 2, (pid.unwrap() / 256) as u8, (pid.unwrap() % 256) as u8],
            )
        },
{
    if publish_of(flags, body) is Some {
        let pid = publish_of(flags, body).unwrap().2;
        if pid is Some {
            law_id_packet_bytes(0x40, pid.unwrap());
        }
    }
}

} // verus!
