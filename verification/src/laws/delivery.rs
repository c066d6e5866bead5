//! Laws of publishing: who gets a message, at what QoS, and who does not.
use crate::laws::bounds::{
    client_bounded, lemma_after_write_bounded, lemma_deliver, lemma_ended, lemma_fill_batch,
};
use crate::model;
use crate::model::{
    Accept, BrokerModel, ClientModel, Delivery, SubModel, WriteOutcome, IN_FLIGHT_CAP,
    WRITE_QUEUE_CAP,
};
use crate::order::lemma_sorted_tokens;
use crate::packet::publish_packet;
use crate::topic::filter_matches;
use crate::views::lemma_filter_has;
use vstd::prelude::*;
use vstd::utf8::encode_utf8;

verus! {

/// From position `from` on, client `token` has no subscription that matches.
pub open spec fn unconcerned(subs: Seq<SubModel>, from: int, token: usize, topic: Seq<char>) -> bool {
    forall|j: int|
        from <= j < subs.len() && (#[trigger] subs[j]).token == token ==> !filter_matches(
            subs[j].filter,
            topic,
        )
}

proof fn lemma_swap_unconcerned(
    subs: Seq<SubModel>,
    i: int,
    token: usize,
    topic: Seq<char>,
)
    requires
        0 <= i < subs.len(),
        unconcerned(subs, i, token, topic) || (subs[i].token == token && unconcerned(
            subs,
            i + 1,
            token,
            topic,
        )),
    ensures
        unconcerned(model::swap_out(subs, i), i, token, topic),
{
    let s2 = model::swap_out(subs, i);
    assert forall|j: int| i <= j < s2.len() && (#[trigger] s2[j]).token == token implies
        !filter_matches(s2[j].filter, topic) by {
        if j == i {
            assert(s2[j] == subs[subs.len() - 1]);
        } else {
            assert(s2[j] == subs[j]);
        }
    }
}

proof fn lemma_fan_out_isolated(
    m: BrokerModel,
    i: int,
    topic: Seq<char>,
    payload: Seq<u8>,
    qos: u8,
    now: u64,
    token: usize,
)
    requires
        unconcerned(m.subs, i, token, topic),
    ensures
        ({
            let m2 = model::fan_out(m, i, topic, payload, qos, now).0;
            &&& m2.clients.contains_key(token) == m.clients.contains_key(token)
            &&& m2.clients[token] == m.clients[token]
        }),
    decreases m.subs.len() - i,
{
    if i < 0 || i >= m.subs.len() {
    } else if !filter_matches(m.subs[i].filter, topic) {
        lemma_fan_out_isolated(m, i + 1, topic, payload, qos, now, token);
    } else {
        let sub = m.subs[i];
        assert(sub.token != token);
        let fwd = model::min_qos(qos, sub.qos);
        let (m2, d) = model::deliver(m, sub.token, topic, payload, fwd, false, now);
        lemma_deliver(m, sub.token, topic, payload, fwd, false, now);
        match d {
            Delivery::Gone => {
                let m3 = BrokerModel { subs: model::swap_out(m2.subs, i), ..m2 };
                lemma_swap_unconcerned(m.subs, i, token, topic);
                lemma_fan_out_isolated(m3, i, topic, payload, qos, now, token);
            },
            _ => {
                lemma_fan_out_isolated(m2, i + 1, topic, payload, qos, now, token);
            },
        }
    }
}

/// A client without a matching subscription sees nothing of a message.
pub proof fn law_isolation(
    m: BrokerModel,
    topic: Seq<char>,
    payload: Seq<u8>,
    qos: u8,
    retain: bool,
    now: u64,
    token: usize,
)
    requires
        unconcerned(m.subs, 0, token, topic),
    ensures
        ({
            let m2 = model::publish(m, topic, payload, qos, retain, now).0;
            &&& m2.clients.contains_key(token) == m.clients.contains_key(token)
            &&& m2.clients[token] == m.clients[token]
        }),
{
    let m1 = if retain {
        BrokerModel { retained: model::retain_message(m.retained, topic, payload, qos), ..m }
    } else {
        m
    };
    lemma_fan_out_isolated(m1, 0, topic, payload, qos, now, token);
}

/// `m2` holds what became of client `token` of `m` when it was offered one
/// message: it is queued, or dropped, or the client is gone.
pub open spec fn offered(
    m: BrokerModel,
    m2: BrokerModel,
    token: usize,
    topic: Seq<char>,
    payload: Seq<u8>,
    qos: u8,
    now: u64,
) -> bool {
    match model::accept(m.clients[token], topic, payload, qos, false, now) {
        Accept::Queued(c2) => m2.clients.contains_key(token) && m2.clients[token] == c2,
        Accept::Full => m2.clients.contains_key(token) && m2.clients[token] == m.clients[token],
        Accept::TooSlow => !m2.clients.contains_key(token),
    }
}

proof fn lemma_fan_out_one(
    m: BrokerModel,
    i: int,
    topic: Seq<char>,
    payload: Seq<u8>,
    qos: u8,
    now: u64,
    token: usize,
    k: int,
)
    requires
        m.clients.contains_key(token),
        0 <= i <= k < m.subs.len(),
        m.subs[k].token == token,
        filter_matches(m.subs[k].filter, topic),
        forall|j: int|
            i <= j < m.subs.len() && j != k && (#[trigger] m.subs[j]).token == token
                ==> !filter_matches(m.subs[j].filter, topic),
    ensures
        offered(
            m,
            model::fan_out(m, i, topic, payload, qos, now).0,
            token,
            topic,
            payload,
            model::min_qos(qos, m.subs[k].qos),
            now,
        ),
    decreases m.subs.len() - i,
{
    if !filter_matches(m.subs[i].filter, topic) {
        lemma_fan_out_one(m, i + 1, topic, payload, qos, now, token, k);
    } else {
        let sub = m.subs[i];
        let fwd = model::min_qos(qos, sub.qos);
        let (m2, d) = model::deliver(m, sub.token, topic, payload, fwd, false, now);
        lemma_deliver(m, sub.token, topic, payload, fwd, false, now);
        if i == k {
            match d {
                Delivery::Gone => {
                    let m3 = BrokerModel { subs: model::swap_out(m2.subs, i), ..m2 };
                    lemma_swap_unconcerned(m.subs, i, token, topic);
                    lemma_fan_out_isolated(m3, i, topic, payload, qos, now, token);
                },
                _ => {
                    lemma_fan_out_isolated(m2, i + 1, topic, payload, qos, now, token);
                },
            }
        } else {
            assert(sub.token != token);
            assert(m2.clients.contains_key(token));
            match d {
                Delivery::Gone => {
                    let m3 = BrokerModel { subs: model::swap_out(m2.subs, i), ..m2 };
                    let s3 = m3.subs;
                    let k3 = if k == m.subs.len() - 1 {
                        i
                    } else {
                        k
                    };
                    assert(s3[k3] == m.subs[k]);
                    assert forall|j: int|
                        i <= j < s3.len() && j != k3 && (#[trigger] s3[j]).token == token implies
                        !filter_matches(s3[j].filter, topic) by {
                        if j == i {
                            assert(s3[j] == m.subs[m.subs.len() - 1]);
                        } else {
                            assert(s3[j] == m.subs[j]);
                        }
                    }
                    lemma_fan_out_one(m3, i, topic, payload, qos, now, token, k3);
                },
                _ => {
                    lemma_fan_out_one(m2, i + 1, topic, payload, qos, now, token, k);
                },
            }
        }
    }
}

/// A client with one matching subscription is offered the message once, at the
/// lower of the publisher's QoS and the subscription's, whatever becomes of it
/// elsewhere.
pub proof fn law_fan_out(
    m: BrokerModel,
    topic: Seq<char>,
    payload: Seq<u8>,
    qos: u8,
    retain: bool,
    now: u64,
    token: usize,
    k: int,
)
    requires
        m.clients.contains_key(token),
        0 <= k < m.subs.len(),
        m.subs[k].token == token,
        filter_matches(m.subs[k].filter, topic),
        forall|j: int|
            0 <= j < m.subs.len() && j != k && (#[trigger] m.subs[j]).token == token
                ==> !filter_matches(m.subs[j].filter, topic),
    ensures
        offered(
            m,
            model::publish(m, topic, payload, qos, retain, now).0,
            token,
            topic,
            payload,
            model::min_qos(qos, m.subs[k].qos),
            now,
        ),
{
    let m1 = if retain {
        BrokerModel { retained: model::retain_message(m.retained, topic, payload, qos), ..m }
    } else {
        m
    };
    lemma_fan_out_one(m1, 0, topic, payload, qos, now, token, k);
}

/// The number of subscriptions from `i` on that match `topic`.
pub open spec fn matching(subs: Seq<SubModel>, i: int, topic: Seq<char>) -> nat
    decreases subs.len() - i,
{
    if i < 0 || i >= subs.len() {
        0
    } else {
        matching(subs, i + 1, topic) + (if filter_matches(subs[i].filter, topic) {
            1nat
        } else {
            0
        })
    }
}

proof fn lemma_matching_last(subs: Seq<SubModel>, i: int, topic: Seq<char>)
    requires
        0 <= i < subs.len(),
    ensures
        matching(subs, i, topic) == matching(subs.drop_last(), i, topic) + (if filter_matches(
            subs.last().filter,
            topic,
        ) {
            1nat
        } else {
            0
        }),
    decreases subs.len() - i,
{
    if i < subs.len() - 1 {
        lemma_matching_last(subs, i + 1, topic);
        assert(subs.drop_last()[i] == subs[i]);
    } else {
        assert(matching(subs, i + 1, topic) == 0);
    }
}

proof fn lemma_matching_same(a: Seq<SubModel>, b: Seq<SubModel>, i: int, topic: Seq<char>)
    requires
        0 <= i,
        a.len() == b.len(),
        forall|j: int| i <= j < a.len() ==> a[j] == b[j],
    ensures
        matching(a, i, topic) == matching(b, i, topic),
    decreases a.len() - i,
{
    if i < a.len() {
        lemma_matching_same(a, b, i + 1, topic);
    }
}

proof fn lemma_matching_swap(subs: Seq<SubModel>, i: int, topic: Seq<char>)
    requires
        0 <= i < subs.len(),
        filter_matches(subs[i].filter, topic),
    ensures
        matching(subs, i, topic) == matching(model::swap_out(subs, i), i, topic) + 1,
{
    let s2 = model::swap_out(subs, i);
    if i == subs.len() - 1 {
        assert(matching(subs, i + 1, topic) == 0);
        assert(s2.len() == i);
    } else {
        lemma_matching_last(subs, i + 1, topic);
        assert(s2[i] == subs.last());
        lemma_matching_same(subs.drop_last(), s2, i + 1, topic);
    }
}

proof fn lemma_fan_out_counts(
    m: BrokerModel,
    i: int,
    topic: Seq<char>,
    payload: Seq<u8>,
    qos: u8,
    now: u64,
)
    requires
        0 <= i,
    ensures
        ({
            let r = model::fan_out(m, i, topic, payload, qos, now);
            r.1 + r.2 + r.3 == matching(m.subs, i, topic)
        }),
    decreases m.subs.len() - i,
{
    if i >= m.subs.len() {
    } else if !filter_matches(m.subs[i].filter, topic) {
        lemma_fan_out_counts(m, i + 1, topic, payload, qos, now);
    } else {
        let sub = m.subs[i];
        let fwd = model::min_qos(qos, sub.qos);
        let (m2, d) = model::deliver(m, sub.token, topic, payload, fwd, false, now);
        lemma_deliver(m, sub.token, topic, payload, fwd, false, now);
        match d {
            Delivery::Gone => {
                let m3 = BrokerModel { subs: model::swap_out(m2.subs, i), ..m2 };
                lemma_fan_out_counts(m3, i, topic, payload, qos, now);
                lemma_matching_swap(m.subs, i, topic);
            },
            _ => {
                lemma_fan_out_counts(m2, i + 1, topic, payload, qos, now);
            },
        }
    }
}

/// Every matching subscription is accounted for: served, dropped for a full
/// queue, or found without a client; and those of the last kind are taken out.
pub proof fn law_every_match_counted(
    m: BrokerModel,
    topic: Seq<char>,
    payload: Seq<u8>,
    qos: u8,
    retain: bool,
    now: u64,
)
    ensures
        ({
            let (m2, delivered, dropped) = model::publish(m, topic, payload, qos, retain, now);
            &&& delivered + dropped + (m.subs.len() - m2.subs.len()) == matching(m.subs, 0, topic)
            &&& m2.subs.len() <= m.subs.len()
        }),
{
    let m1 = if retain {
        BrokerModel { retained: model::retain_message(m.retained, topic, payload, qos), ..m }
    } else {
        m
    };
    lemma_fan_out_counts(m1, 0, topic, payload, qos, now);
    lemma_fan_out_subs(m1, 0, topic, payload, qos, now);
}

proof fn lemma_fan_out_subs(
    m: BrokerModel,
    i: int,
    topic: Seq<char>,
    payload: Seq<u8>,
    qos: u8,
    now: u64,
)
    ensures
        ({
            let r = model::fan_out(m, i, topic, payload, qos, now);
            r.0.subs.len() + r.3 == m.subs.len()
        }),
    decreases m.subs.len() - i,
{
    if i < 0 || i >= m.subs.len() {
    } else if !filter_matches(m.subs[i].filter, topic) {
        lemma_fan_out_subs(m, i + 1, topic, payload, qos, now);
    } else {
        let sub = m.subs[i];
        let fwd = model::min_qos(qos, sub.qos);
        let (m2, d) = model::deliver(m, sub.token, topic, payload, fwd, false, now);
        lemma_deliver(m, sub.token, topic, payload, fwd, false, now);
        match d {
            Delivery::Gone => {
                let m3 = BrokerModel { subs: model::swap_out(m2.subs, i), ..m2 };
                lemma_fan_out_subs(m3, i, topic, payload, qos, now);
            },
            _ => {
                lemma_fan_out_subs(m2, i + 1, topic, payload, qos, now);
            },
        }
    }
}

/// A full queue costs a subscriber the QoS 0 message and nothing else.
pub proof fn law_full_queue_drops_message(
    m: BrokerModel,
    token: usize,
    topic: Seq<char>,
    payload: Seq<u8>,
    retain: bool,
    now: u64,
)
    requires
        m.clients.contains_key(token),
        m.clients[token].write_queue.len() >= WRITE_QUEUE_CAP,
    ensures
        model::deliver(m, token, topic, payload, 0, retain, now) == (
            BrokerModel { drops: model::count(m.drops, 1), ..m },
            Delivery::Dropped,
        ),
{
}

// ---- order in a queue ----

/// `entry` is a queued PUBLISH of this message, reliable unless it is QoS 0.
pub open spec fn carries(
    entry: (bool, Seq<u8>),
    topic: Seq<char>,
    payload: Seq<u8>,
    qos: u8,
    retain: bool,
) -> bool {
    &&& entry.0 == (qos > 0)
    &&& exists|pid: Option<u16>|
        (pid is Some <==> qos > 0) && entry.1 == #[trigger] publish_packet(
            encode_utf8(topic),
            payload,
            qos,
            pid,
            false,
            retain,
        )
}

/// There is room for `n` more packets, `reliable` of them messages at QoS 1 or
/// 2.
pub open spec fn has_room(c: ClientModel, n: nat, reliable: nat) -> bool {
    &&& c.write_queue.len() + n <= WRITE_QUEUE_CAP
    &&& reliable > 0 ==> c.in_flight.dom().finite() && c.in_flight.dom().len() + reliable
        <= IN_FLIGHT_CAP
}

/// The places among the unacknowledged messages that a message takes.
pub open spec fn places(qos: u8) -> nat {
    if qos > 0 {
        1
    } else {
        0
    }
}

/// Where there is room, a message goes to the end of the queue and nothing
/// leaves it.
pub proof fn law_message_queued(
    c: ClientModel,
    topic: Seq<char>,
    payload: Seq<u8>,
    qos: u8,
    retain: bool,
    now: u64,
    n: nat,
    reliable: nat,
)
    requires
        has_room(c, n + 1, reliable + places(qos)),
    ensures
        model::accept(c, topic, payload, qos, retain, now) matches Accept::Queued(c2) && has_room(
            c2,
            n,
            reliable,
        ) && c2.write_queue.len() == c.write_queue.len() + 1 && c2.write_queue.drop_last()
            == c.write_queue && carries(c2.write_queue.last(), topic, payload, qos, retain),
{
    let pid = model::free_pid(c.in_flight.dom(), c.next_pid);
    match model::accept(c, topic, payload, qos, retain, now) {
        Accept::Queued(c2) => {
            assert(c2.write_queue.drop_last() =~= c.write_queue);
            if qos == 0 {
                assert(c2.write_queue.last() == (
                    false,
                    publish_packet(encode_utf8(topic), payload, 0, None, false, retain),
                ));
            } else {
                assert(c2.write_queue.last() == (
                    true,
                    publish_packet(encode_utf8(topic), payload, qos, Some(pid), false, retain),
                ));
                assert(c2.in_flight.dom() =~= c.in_flight.dom().insert(pid));
            }
        },
        _ => {},
    }
}

/// Making room in a full queue takes out packets that may be dropped and no
/// others, and leaves the rest in order.
pub proof fn law_make_room_keeps_reliable(q: Seq<(bool, Seq<u8>)>)
    ensures
        model::make_room(q).filter(|e: (bool, Seq<u8>)| e.0) == q.filter(
            |e: (bool, Seq<u8>)| e.0,
        ),
        model::make_room(q).len() < WRITE_QUEUE_CAP || forall|i: int|
            0 <= i < model::make_room(q).len() ==> (#[trigger] model::make_room(q)[i]).0,
        q.len() <= WRITE_QUEUE_CAP ==> model::make_room(q).len() + 1 >= q.len(),
    decreases q.len(),
{
    let reliable = |e: (bool, Seq<u8>)| e.0;
    let i = model::first_droppable(q) as int;
    lemma_first_droppable_is(q);
    if !(q.len() < WRITE_QUEUE_CAP || i >= q.len()) {
        let q2 = q.remove(i);
        law_make_room_keeps_reliable(q2);
        lemma_filter_remove(q, i, reliable);
    }
}

proof fn lemma_first_droppable_is(q: Seq<(bool, Seq<u8>)>)
    ensures
        model::first_droppable(q) <= q.len(),
        model::first_droppable(q) < q.len() ==> !q[model::first_droppable(q) as int].0,
        forall|j: int| 0 <= j < model::first_droppable(q) ==> (#[trigger] q[j]).0,
    decreases q.len(),
{
    if q.len() > 0 && q[0].0 {
        lemma_first_droppable_is(q.skip(1));
        assert forall|j: int| 0 <= j < model::first_droppable(q) implies (#[trigger] q[j]).0 by {
            if j > 0 {
                assert(q.skip(1)[j - 1] == q[j]);
            }
        }
    }
}

proof fn lemma_filter_remove<T>(s: Seq<T>, i: int, keep: spec_fn(T) -> bool)
    requires
        0 <= i < s.len(),
        !keep(s[i]),
    ensures
        s.remove(i).filter(keep) == s.filter(keep),
    decreases s.len(),
{
    reveal(Seq::filter);
    if i == s.len() - 1 {
        assert(s.remove(i) =~= s.drop_last());
    } else {
        let rest = s.drop_last();
        lemma_filter_remove(rest, i, keep);
        assert(s.remove(i).drop_last() =~= rest.remove(i));
        assert(s.remove(i).last() == s.last());
    }
}

// ---- writing ----

/// The bytes of queued packets, in order.
pub open spec fn queued_bytes(q: Seq<(bool, Seq<u8>)>) -> Seq<u8>
    decreases q.len(),
{
    if q.len() == 0 {
        Seq::empty()
    } else {
        q[0].1 + queued_bytes(q.skip(1))
    }
}

/// Everything that a client is still to be sent.
pub open spec fn outstanding(c: ClientModel) -> Seq<u8> {
    model::unwritten(c) + queued_bytes(c.write_queue)
}

proof fn lemma_fill_batch_bytes(batch: Seq<u8>, ends: Seq<nat>, q: Seq<(bool, Seq<u8>)>)
    ensures
        ({
            let (b2, _, q2) = model::fill_batch(batch, ends, q);
            b2 + queued_bytes(q2) == batch + queued_bytes(q)
        }),
    decreases q.len(),
{
    if !(batch.len() >= model::BATCH_MAX || q.len() == 0) {
        let joined = batch + q[0].1;
        lemma_fill_batch_bytes(joined, ends.push(joined.len()), q.skip(1));
        assert(joined + queued_bytes(q.skip(1)) =~= batch + (q[0].1 + queued_bytes(q.skip(1))));
    }
}

/// Packets are joined into a batch until it holds `BATCH_MAX` bytes or the
/// queue is empty, and no packet is added to a batch that holds as many.
pub proof fn law_batch_size(
    batch: Seq<u8>,
    ends: Seq<nat>,
    q: Seq<(bool, Seq<u8>)>,
    longest: nat,
)
    requires
        forall|i: int| 0 <= i < q.len() ==> (#[trigger] q[i]).1.len() <= longest,
        batch.len() < model::BATCH_MAX + longest,
    ensures
        ({
            let (b2, _, q2) = model::fill_batch(batch, ends, q);
            &&& b2.len() >= model::BATCH_MAX || q2.len() == 0
            &&& b2.len() < model::BATCH_MAX + longest
        }),
    decreases q.len(),
{
    if !(batch.len() >= model::BATCH_MAX || q.len() == 0) {
        let joined = batch + q[0].1;
        let rest = q.skip(1);
        assert forall|i: int| 0 <= i < rest.len() implies (#[trigger] rest[i]).1.len()
            <= longest by {
            assert(rest[i] == q[i + 1]);
        }
        assert(q[0].1.len() <= longest);
        law_batch_size(joined, ends.push(joined.len()), rest, longest);
    }
}

/// Joining packets into batches loses no byte and keeps their order: after `n`
/// bytes were written, what is outstanding is what was, without these.
pub proof fn law_batches_keep_bytes(c: ClientModel, n: usize)
    requires
        n <= model::unwritten(c).len(),
        c.write_off <= c.write_pending.len() <= usize::MAX,
    ensures
        outstanding(model::after_write(c, n).0) == outstanding(c).skip(n as int),
        !model::after_write(c, n).2 ==> outstanding(c).len() == n,
{
    let (c2, _, more) = model::after_write(c, n);
    let off = (c.write_off + n) as int;
    assert(model::unwritten(c).skip(n as int) =~= c.write_pending.skip(off));
    assert(outstanding(c).skip(n as int) =~= c.write_pending.skip(off) + queued_bytes(
        c.write_queue,
    ));
    if off < c.write_pending.len() {
    } else if c.write_queue.len() == 0 {
        assert(c.write_pending.skip(off) =~= Seq::empty());
    } else {
        lemma_fill_batch_bytes(Seq::empty(), Seq::empty(), c.write_queue);
        assert(c.write_pending.skip(off) =~= Seq::empty());
        assert(c2.write_pending.skip(0) =~= c2.write_pending);
        assert(Seq::<u8>::empty() + queued_bytes(c.write_queue) =~= queued_bytes(c.write_queue));
        assert(outstanding(c2) =~= outstanding(c).skip(n as int));
    }
}

// ---- counting what is written ----

/// The positions noted for a batch are those where its packets end: the bytes
/// up to the `i`-th of them are the first `i + 1` packets of the queue.
pub proof fn law_ends_are_packet_ends(q: Seq<(bool, Seq<u8>)>, i: int)
    requires
        0 <= i < model::fill_batch(Seq::empty(), Seq::empty(), q).1.len(),
    ensures
        ({
            let (batch, ends, rest) = model::fill_batch(Seq::empty(), Seq::empty(), q);
            &&& ends.len() + rest.len() == q.len()
            &&& ends[i] <= batch.len()
            &&& batch.take(ends[i] as int) == queued_bytes(q.take(i + 1))
        }),
{
    lemma_fill_batch(Seq::empty(), Seq::empty(), q);
    assert(q.take(0) =~= Seq::empty());
    assert(q.skip(0) =~= q);
    lemma_packet_ends(Seq::empty(), Seq::empty(), q, 0, i);
}

proof fn lemma_queued_bytes_next(q: Seq<(bool, Seq<u8>)>, k: int)
    requires
        0 <= k < q.len(),
    ensures
        queued_bytes(q.take(k + 1)) == queued_bytes(q.take(k)) + q[k].1,
    decreases q.len(),
{
    let a = q.take(k + 1);
    if k == 0 {
        assert(a.skip(1) =~= Seq::empty());
        assert(q.take(0) =~= Seq::empty());
        assert(queued_bytes(a.skip(1)) == Seq::<u8>::empty());
        assert(queued_bytes(a) =~= queued_bytes(q.take(0)) + q[0].1);
    } else {
        let rest = q.skip(1);
        lemma_queued_bytes_next(rest, k - 1);
        assert(a.skip(1) =~= rest.take(k));
        assert(q.take(k).skip(1) =~= rest.take(k - 1));
        assert(rest[k - 1] == q[k]);
        assert(queued_bytes(a) =~= queued_bytes(q.take(k)) + q[k].1);
    }
}

proof fn lemma_packet_ends(
    batch: Seq<u8>,
    ends: Seq<nat>,
    q: Seq<(bool, Seq<u8>)>,
    k: int,
    i: int,
)
    requires
        0 <= k <= q.len(),
        ends.len() == k,
        batch == queued_bytes(q.take(k)),
        forall|j: int|
            0 <= j < k ==> #[trigger] ends[j] <= batch.len() && batch.take(ends[j] as int)
                == queued_bytes(q.take(j + 1)),
        0 <= i < model::fill_batch(batch, ends, q.skip(k)).1.len(),
    ensures
        ({
            let (b2, e2, _) = model::fill_batch(batch, ends, q.skip(k));
            e2[i] <= b2.len() && b2.take(e2[i] as int) == queued_bytes(q.take(i + 1))
        }),
    decreases q.len() - k,
{
    let rest = q.skip(k);
    if !(batch.len() >= model::BATCH_MAX || rest.len() == 0) {
        assert(rest[0] == q[k]);
        assert(rest.skip(1) =~= q.skip(k + 1));
        let joined = batch + q[k].1;
        let ends2 = ends.push(joined.len());
        lemma_queued_bytes_next(q, k);
        assert forall|j: int| 0 <= j < k + 1 implies #[trigger] ends2[j] <= joined.len()
            && joined.take(ends2[j] as int) == queued_bytes(q.take(j + 1)) by {
            if j < k {
                assert(ends[j] <= batch.len());
                assert(joined.take(ends[j] as int) =~= batch.take(ends[j] as int));
            } else {
                assert(joined.take(joined.len() as int) =~= joined);
            }
        }
        lemma_packet_ends(joined, ends2, q, k + 1, i);
    }
}

/// The number of packets that a client is still to be sent the last byte of.
pub open spec fn packets_waiting(c: ClientModel) -> nat {
    c.write_ends.len() + c.write_queue.len()
}

/// Every packet is counted once: those counted in a step are no longer waiting
/// after it, and when nothing is left to write all have been counted.
pub proof fn law_packets_counted_once(c: ClientModel, n: usize)
    requires
        client_bounded(c),
        n <= model::unwritten(c).len(),
        c.write_pending.len() <= usize::MAX,
    ensures
        ({
            let (c2, counted, more) = model::after_write(c, n);
            &&& counted + packets_waiting(c2) == packets_waiting(c)
            &&& !more ==> packets_waiting(c2) == 0
        }),
{
    let off = (c.write_off + n) as usize;
    lemma_ended(c.write_ends, off);
    lemma_fill_batch(Seq::empty(), Seq::empty(), c.write_queue);
}

/// A client's queue is flushed over a connection that takes every byte it is
/// offered.
pub open spec fn flush_all(m: BrokerModel, token: usize, now: u64) -> BrokerModel
    decreases m.clients[token].write_queue.len(),
{
    let offered = model::unwritten(m.clients[token]).len() as usize;
    let (m2, action) = model::on_write(m, token, WriteOutcome::Wrote(offered), now);
    if action is Write && m2.clients[token].write_queue.len() < m.clients[token].write_queue.len() {
        flush_all(m2, token, now)
    } else {
        m2
    }
}

pub proof fn lemma_count_twice(x: u64, a: nat, b: nat)
    ensures
        model::count(model::count(x, a), b) == model::count(x, a + b),
{
    let w = 0x1_0000_0000_0000_0000int;
    assert(((x + a) % w + b) % w == (x + (a + b)) % w) by (nonlinear_arith)
        requires
            w == 0x1_0000_0000_0000_0000int,
    ;
}

/// When everything is taken, the count of sent packets grows by the number of
/// packets that were waiting, and none is left.
pub proof fn law_flush_counts_packets(m: BrokerModel, token: usize, now: u64)
    requires
        m.clients.contains_key(token),
        client_bounded(m.clients[token]),
        m.clients[token].write_pending.len() <= usize::MAX,
        outstanding(m.clients[token]).len() <= usize::MAX,
    ensures
        ({
            let m2 = flush_all(m, token, now);
            &&& m2.sys_msgs_sent == model::count(
                m.sys_msgs_sent,
                packets_waiting(m.clients[token]),
            )
            &&& m2.clients.contains_key(token)
            &&& packets_waiting(m2.clients[token]) == 0
            &&& outstanding(m2.clients[token]).len() == 0
        }),
    decreases m.clients[token].write_queue.len(),
{
    let c = m.clients[token];
    let n = model::unwritten(c).len() as usize;
    assert(c.write_pending.len() - c.write_off == model::unwritten(c).len());
    lemma_written_all(c);
    lemma_after_write_bounded(c, n);
    law_packets_counted_once(c, n);
    law_batches_keep_bytes(c, n);
    let m1 = model::on_write(m, token, WriteOutcome::Wrote(n), now).0;
    let (c1, counted, more) = model::after_write(c, n);
    assert(m1.clients[token] == c1);
    if more {
        assert(model::unwritten(c1) =~= c1.write_pending);
        assert(outstanding(c1).len() <= outstanding(c).len());
        assert(model::unwritten(c1).len() <= outstanding(c1).len());
        law_flush_counts_packets(m1, token, now);
        lemma_count_twice(m.sys_msgs_sent, counted, packets_waiting(c1));
    }
}

proof fn lemma_written_all(c: ClientModel)
    requires
        client_bounded(c),
        c.write_pending.len() <= usize::MAX,
    ensures
        ({
            let n = model::unwritten(c).len() as usize;
            let (c2, _, more) = model::after_write(c, n);
            more ==> c2.write_queue.len() < c.write_queue.len() && c2.write_off == 0
        }),
{
    let q = c.write_queue;
    assert(c.write_off + model::unwritten(c).len() == c.write_pending.len());
    if q.len() > 0 {
        let first = Seq::<u8>::empty() + q[0].1;
        lemma_fill_batch(first, seq![first.len()], q.skip(1));
        assert(Seq::<nat>::empty().push(first.len()) =~= seq![first.len()]);
    }
}

/// A client is flushed as long as it has outstanding bytes, be they queued or
/// the rest of a batch that was interrupted.
pub proof fn law_outstanding_is_flushed(m: BrokerModel, token: usize)
    requires
        m.clients.dom().finite(),
        m.clients.contains_key(token),
        outstanding(m.clients[token]).len() > 0,
    ensures
        model::waiting(m).contains(token),
{
    let c = m.clients[token];
    lemma_sorted_tokens(m.clients.dom());
    lemma_filter_has(model::tokens(m), |t: usize| model::has_unsent(m.clients[t]), token);
}

} // verus!
