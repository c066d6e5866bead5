//! Laws of one client: its queue, its packet ids, and what it does with a
//! message.
use crate::client::lemma_some_pid_free;
use crate::model;
use crate::model::{Accept, BrokerModel, ClientModel};
use crate::packet::publish_packet;
use vstd::prelude::*;
use vstd::utf8::encode_utf8;

verus! {

// ---- numbers ----

/// The QoS at which a message is forwarded, stored or sent as retained is no
/// higher than the message's and the subscription's, and is one of the two.
pub proof fn law_lower_qos(a: u8, b: u8)
    ensures
        model::min_qos(a, b) <= a,
        model::min_qos(a, b) <= b,
        model::min_qos(a, b) == a || model::min_qos(a, b) == b,
        model::min_qos(a, b) == model::min_qos(b, a),
{
}

/// A counter grows by what is counted, and starts again from zero behind the
/// largest number it can hold.
pub proof fn law_counter(counter: u64, n: nat)
    ensures
        counter + n <= u64::MAX ==> model::count(counter, n) == counter + n,
        counter + n == u64::MAX + 1 ==> model::count(counter, n) == 0,
        model::count(model::count(counter, n), 1) == model::count(counter, n + 1),
{
    crate::laws::delivery::lemma_count_twice(counter, n, 1);
}

// ---- the queue ----

/// `q2` is queue `q` behind which `pkt` was queued as a packet that may be
/// dropped: in a full queue it is dropped itself.
pub open spec fn answered(
    q: Seq<(bool, Seq<u8>)>,
    q2: Seq<(bool, Seq<u8>)>,
    pkt: Seq<u8>,
) -> bool {
    &&& q.len() < 8192 ==> q2.len() == q.len() + 1 && q2.drop_last() == q && q2.last() == (
        false,
        pkt,
    )
    &&& q.len() >= 8192 ==> q2 == q
}

/// An answer goes to the end of the client's queue, if that is not full, and
/// changes nothing else of the client.
pub proof fn law_answer_queued(c: ClientModel, pkt: Seq<u8>)
    ensures
        ({
            let c2 = model::with_qos0(c, pkt);
            &&& answered(c.write_queue, c2.write_queue, pkt)
            &&& c2 == (ClientModel { write_queue: c2.write_queue, ..c })
        }),
{
    let c2 = model::with_qos0(c, pkt);
    if c.write_queue.len() < 8192 {
        assert(c2.write_queue.drop_last() =~= c.write_queue);
    }
}

/// An answer changes nothing but the queue of the client it is for.
pub proof fn law_reply(m: BrokerModel, token: usize, pkt: Seq<u8>)
    requires
        m.clients.contains_key(token),
    ensures
        ({
            let m2 = model::reply(m, token, pkt);
            let (c, c2) = (m.clients[token], m2.clients[token]);
            &&& answered(c.write_queue, c2.write_queue, pkt)
            &&& c2 == (ClientModel { write_queue: c2.write_queue, ..c })
            &&& m2.clients == m.clients.insert(token, c2)
            &&& m2 == (BrokerModel { clients: m2.clients, ..m })
        }),
{
    law_answer_queued(m.clients[token], pkt);
}

proof fn lemma_droppable_at(q: Seq<(bool, Seq<u8>)>, i: int)
    requires
        0 <= i <= q.len(),
        forall|j: int| 0 <= j < i ==> (#[trigger] q[j]).0,
        i < q.len() ==> !q[i].0,
    ensures
        model::first_droppable(q) == i,
    decreases i,
{
    if i > 0 {
        let rest = q.skip(1);
        assert forall|j: int| 0 <= j < i - 1 implies (#[trigger] rest[j]).0 by {
            assert(rest[j] == q[j + 1]);
        }
        lemma_droppable_at(rest, i - 1);
        assert(q[0].0);
    }
}

/// For a packet that must not be dropped, a full queue loses the oldest packet
/// that may be, and no other; a queue that is not full, or that holds no such
/// packet, stays as it is.
pub proof fn law_oldest_droppable_goes(q: Seq<(bool, Seq<u8>)>, i: int)
    requires
        0 <= i <= q.len() <= 8192,
        forall|j: int| 0 <= j < i ==> (#[trigger] q[j]).0,
        i < q.len() ==> !q[i].0,
    ensures
        model::make_room(q) == (if q.len() == 8192 && i < q.len() {
            q.remove(i)
        } else {
            q
        }),
{
    lemma_droppable_at(q, i);
    if q.len() == 8192 && i < q.len() {
        assert(q.remove(i).len() == 8191);
        assert(model::make_room(q.remove(i)) == q.remove(i));
    }
}

/// The position of the oldest packet that may be dropped; the length of the
/// queue if there is none.
proof fn lemma_oldest_droppable(q: Seq<(bool, Seq<u8>)>) -> (i: int)
    ensures
        0 <= i <= q.len(),
        forall|j: int| 0 <= j < i ==> (#[trigger] q[j]).0,
        i < q.len() ==> !q[i].0,
    decreases q.len(),
{
    if q.len() == 0 || !q[0].0 {
        0
    } else {
        let rest = q.skip(1);
        let k = lemma_oldest_droppable(rest);
        assert forall|j: int| 0 <= j < k + 1 implies (#[trigger] q[j]).0 by {
            if j > 0 {
                assert(rest[j - 1].0);
            }
        }
        if k < rest.len() {
            assert(rest[k] == q[k + 1]);
        }
        k + 1
    }
}

// ---- packet ids ----

proof fn lemma_first_free(used: Set<u16>, start: u16, k: nat, n: nat)
    requires
        k <= n < 65535,
        !used.contains(model::pid_at(start, n)),
    ensures
        ({
            let r = model::taken_run(used, start, k);
            &&& k <= r <= n
            &&& !used.contains(model::pid_at(start, r))
            &&& forall|j: nat| k <= j < r ==> used.contains(#[trigger] model::pid_at(start, j))
        }),
    decreases n - k,
{
    if used.contains(model::pid_at(start, k)) {
        lemma_first_free(used, start, k + 1, n);
    }
}

/// A packet id is the first from `start` on that is not in use, counting on
/// from 1 behind 65535; zero is never used.
pub proof fn law_first_free_id(used: Set<u16>, start: u16)
    requires
        used.finite(),
        used.len() < 256,
    ensures
        ({
            let pid = model::free_pid(used, start);
            &&& 1 <= pid
            &&& !used.contains(pid)
            &&& pid >= start ==> forall|p: u16| 1 <= p && start <= p < pid ==> used.contains(p)
            &&& pid < start ==> forall|p: u16| start <= p || 1 <= p < pid ==> used.contains(p)
        }),
{
    lemma_some_pid_free(used, start, 256);
    let n = choose|k: nat| k < 256 && !used.contains(#[trigger] model::pid_at(start, k));
    lemma_first_free(used, start, 0, n);
    let r = model::taken_run(used, start, 0);
    let pid = model::free_pid(used, start);
    let first: int = if start == 0 {
        1
    } else {
        start as int
    };
    assert forall|p: u16|
        (pid >= start && 1 <= p && start <= p < pid) || (pid < start && (start <= p || 1 <= p
            < pid)) implies used.contains(p) by {
        let j: int = if p >= first {
            p - first
        } else {
            p - first + 65535
        };
        assert(0 <= j < 65535);
        assert(model::pid_at(start, j as nat) == p);
        assert(j < r) by {
            if first - 1 + r < 65535 {
                assert(pid == first + r);
            } else {
                assert(pid == first + r - 65535);
            }
        }
    }
}

/// The search for the next packet id starts behind the one just taken; behind
/// the last it starts anew.
pub proof fn law_next_search(pid: u16)
    ensures
        pid < 65535 ==> model::pid_after(pid) == pid + 1,
        pid == 65535 ==> model::pid_after(pid) == 0,
{
}

// ---- one message for one client ----

/// A QoS 0 message goes to the end of a queue that holds fewer than 8192
/// packets, as one that may be dropped and without a packet id, and changes
/// nothing else; a full queue does not take it.
pub proof fn law_plain_message(
    c: ClientModel,
    topic: Seq<char>,
    payload: Seq<u8>,
    retain: bool,
    now: u64,
)
    ensures
        ({
            let pkt = publish_packet(encode_utf8(topic), payload, 0, None, false, retain);
            match model::accept(c, topic, payload, 0, retain, now) {
                Accept::Queued(c2) => c.write_queue.len() < 8192 && c2.write_queue
                    == c.write_queue.push((false, pkt)) && c2 == (ClientModel {
                    write_queue: c2.write_queue,
                    ..c
                }),
                Accept::Full => c.write_queue.len() >= 8192,
                Accept::TooSlow => false,
            }
        }),
{
}

/// A QoS 1 or 2 message is taken exactly if fewer than 256 messages are in
/// flight and the queue is not full of packets that must not be dropped.
pub proof fn law_reliable_message_taken(
    c: ClientModel,
    topic: Seq<char>,
    payload: Seq<u8>,
    qos: u8,
    retain: bool,
    now: u64,
)
    requires
        qos > 0,
        c.write_queue.len() <= 8192,
    ensures
        ({
            let r = model::accept(c, topic, payload, qos, retain, now);
            &&& r is Queued || r is TooSlow
            &&& r is Queued <==> c.in_flight.dom().len() < 256 && (c.write_queue.len() < 8192
                || exists|i: int| 0 <= i < c.write_queue.len() && !(#[trigger] c.write_queue[i]).0)
        }),
{
    let q = c.write_queue;
    let i = lemma_oldest_droppable(q);
    law_oldest_droppable_goes(q, i);
    if i < q.len() {
        assert(!q[i].0);
    }
}

/// A QoS 1 or 2 message that is taken goes to the end of the queue under a
/// packet id that was not in use, as one that must not be dropped; it is in
/// flight from then on, sent at `now` and not yet sent again. A full queue loses
/// its oldest packet that may be dropped. Nothing else changes.
pub proof fn law_reliable_message(
    c: ClientModel,
    topic: Seq<char>,
    payload: Seq<u8>,
    qos: u8,
    retain: bool,
    now: u64,
    c2: ClientModel,
) -> (pid: u16)
    requires
        qos > 0,
        c.write_queue.len() <= 8192,
        c.in_flight.dom().finite(),
        model::accept(c, topic, payload, qos, retain, now) == Accept::Queued(c2),
    ensures
        ({
            let pkt = publish_packet(encode_utf8(topic), payload, qos, Some(pid), false, retain);
            let q = c.write_queue;
            &&& 1 <= pid
            &&& !c.in_flight.contains_key(pid)
            &&& c2.in_flight.dom() == c.in_flight.dom().insert(pid)
            &&& c2.in_flight[pid].pkt == pkt
            &&& c2.in_flight[pid].sent_at == now
            &&& c2.in_flight[pid].retries == 0
            &&& c2.in_flight[pid].qos2 <==> qos == 2
            &&& !c2.in_flight[pid].await_pubcomp
            &&& forall|p: u16| #[trigger]
                c.in_flight.contains_key(p) ==> c2.in_flight[p] == c.in_flight[p]
            &&& c2.next_pid == (if pid == 65535 {
                0int
            } else {
                pid + 1
            })
            &&& c2.write_queue.last() == (true, pkt)
            &&& q.len() < 8192 ==> c2.write_queue.drop_last() == q
            &&& q.len() == 8192 ==> exists|i: int|
                0 <= i < 8192 && !(#[trigger] q[i]).0 && (forall|j: int|
                    0 <= j < i ==> (#[trigger] q[j]).0) && c2.write_queue.drop_last() == q.remove(i)
            &&& c2 == (ClientModel {
                write_queue: c2.write_queue,
                next_pid: c2.next_pid,
                in_flight: c2.in_flight,
                ..c
            })
            &&& pid >= c.next_pid ==> forall|p: u16|
                1 <= p && c.next_pid <= p < pid ==> c.in_flight.contains_key(p)
            &&& pid < c.next_pid ==> forall|p: u16|
                c.next_pid <= p || 1 <= p < pid ==> c.in_flight.contains_key(p)
        }),
{
    let used = c.in_flight.dom();
    let pid = model::free_pid(used, c.next_pid);
    law_first_free_id(used, c.next_pid);
    let q = c.write_queue;
    let i = lemma_oldest_droppable(q);
    law_oldest_droppable_goes(q, i);
    assert(c2.write_queue.drop_last() =~= model::make_room(q));
    assert(c2.in_flight.dom() =~= used.insert(pid));
    if q.len() == 8192 {
        assert(i < q.len());
        assert(!q[i].0);
    }
    assert forall|p: u16| #[trigger] c.in_flight.contains_key(p) implies c2.in_flight[p]
        == c.in_flight[p] by {
        assert(p != pid);
    }
    pid
}

// ---- a new connection ----

/// A connection that was just accepted has nothing queued, in flight or read;
/// no name, no will, no deadline and no session to keep; and takes its packet
/// ids from 1 on.
pub proof fn law_fresh_client(token: usize)
    ensures
        ({
            let c = model::fresh_client(token);
            &&& c.token == token
            &&& c.read_buf.len() == 0
            &&& c.write_queue.len() == 0
            &&& c.write_pending.len() == 0 && c.write_off == 0 && c.write_ends.len() == 0
            &&& c.client_id.len() == 0
            &&& c.keepalive == 0 && c.keepalive_deadline is None
            &&& c.in_flight.dom() == Set::<u16>::empty()
            &&& c.received_qos2 == Set::<u16>::empty()
            &&& c.next_pid == 1
            &&& !c.will_flag && c.clean_session && !c.clean_disconnect
        }),
{
    assert(model::fresh_client(token).in_flight.dom() =~= Set::<u16>::empty());
}

} // verus!
