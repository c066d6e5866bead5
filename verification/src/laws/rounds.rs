//! Laws of what is done round by round: reading, writing, the keepalive sweep,
//! retransmission and statistics.
use crate::frame::{packets_of, FrameError};
use crate::laws::bounds::{
    bounded, law_remove_bounded, law_settle_bounded, lemma_remove_all, lemma_remove_present,
    lemma_resend_all, only_delivered,
};
use crate::laws::format::law_id_packet_bytes;
use crate::laws::leaving::law_settled;
use crate::laws::queue::law_oldest_droppable_goes;
use crate::model;
use crate::model::{
    BrokerModel, ClientModel, FlushAction, InFlightModel, PacketError, ReadOutcome, WriteOutcome,
};
use crate::order::{lemma_sorted_pids, lemma_sorted_tokens, sorted_pids};
use crate::views::lemma_filter_has;
use vstd::prelude::*;

verus! {

// ---- time ----

/// The time that has passed is the difference, and none if it lies ahead.
pub proof fn law_elapsed(now: u64, past: u64)
    ensures
        past <= now ==> model::elapsed(now, past) + past == now,
        past > now ==> model::elapsed(now, past) == 0,
{
}

// ---- reading ----

/// The whole packets in a client's read buffer are taken out of it, handled one
/// after the other and counted; if one is refused for its length, nothing
/// happens but that.
pub proof fn law_buffer_handled(m: BrokerModel, token: usize, now: u64)
    requires
        m.clients.contains_key(token),
    ensures
        ({
            let c = m.clients[token];
            let (m2, r) = model::on_buffer(m, token, now);
            match packets_of(c.read_buf) {
                Err(FrameError::TooLarge(n)) => m2 == m && r == Err::<(), PacketError>(
                    PacketError::TooLarge(n),
                ),
                Err(FrameError::BadLength) => m2 == m && r == Err::<(), PacketError>(
                    PacketError::BadLength,
                ),
                Ok((pkts, used)) => {
                    let m1 = BrokerModel {
                        clients: m.clients.insert(
                            token,
                            ClientModel { read_buf: c.read_buf.skip(used as int), ..c },
                        ),
                        ..m
                    };
                    let (p, e) = model::on_packets(m1, token, pkts, now);
                    &&& e is Ok <==> r is Ok
                    &&& e is Err ==> r == e && m2 == p
                    &&& e is Ok ==> m2 == (BrokerModel {
                        sys_msgs_received: model::count(p.sys_msgs_received, pkts.len()),
                        ..p
                    })
                },
            }
        }),
{
}

/// Bytes that arrive are put behind those that are there. More than 65536 of
/// them close the connection unread; otherwise whole packets are handled, and
/// the connection stays open if none is refused.
pub proof fn law_bytes_taken_in(m: BrokerModel, token: usize, data: Seq<u8>, now: u64)
    requires
        m.clients.contains_key(token),
    ensures
        ({
            let c = m.clients[token];
            let m1 = BrokerModel {
                clients: m.clients.insert(
                    token,
                    ClientModel { read_buf: c.read_buf + data, ..c },
                ),
                ..m
            };
            let (m2, open) = model::on_bytes(m, token, data, now);
            &&& c.read_buf.len() + data.len() > 65536 ==> !open && m2 == m1
            &&& c.read_buf.len() + data.len() <= 65536 ==> m2 == model::on_buffer(
                m1,
                token,
                now,
            ).0 && (open <==> model::on_buffer(m1, token, now).1 is Ok)
        }),
{
}

/// A connection that ends or fails costs the client its place, and so do bytes
/// that close it; one that has nothing to read stays. A read leaves no departure
/// open.
pub proof fn law_read(m: BrokerModel, token: usize, read: ReadOutcome, now: u64)
    requires
        bounded(m),
        m.clients.contains_key(token),
    ensures
        ({
            let (m2, open) = model::on_read(m, token, read, now);
            &&& m2.leaving.len() == 0
            &&& read is Eof || read is Failed ==> !open
            &&& read is WouldBlock ==> open
            &&& read matches ReadOutcome::Data(data) ==> (open <==> model::on_bytes(
                m,
                token,
                data@,
                now,
            ).1)
            &&& !open ==> !m2.clients.contains_key(token)
            &&& read is WouldBlock && m.leaving.len() == 0 ==> m2 == m
            &&& read is Eof || read is Failed ==> m2 == model::settle(
                model::remove(m, token, now),
                now,
            )
            &&& read matches ReadOutcome::Data(data) ==> m2 == model::settle(
                if open {
                    model::on_bytes(m, token, data@, now).0
                } else {
                    model::remove(model::on_bytes(m, token, data@, now).0, token, now)
                },
                now,
            )
        }),
{
    let (m1, open) = model::served(m, token, read, now);
    match read {
        ReadOutcome::Data(data) => {
            let p = model::on_bytes(m, token, data@, now).0;
            crate::laws::bounds::law_bytes_bounded(m, token, data@, now);
            law_remove_bounded(p, token, now);
        },
        _ => {
            law_remove_bounded(m, token, now);
        },
    }
    law_settled(m1, now);
    law_settle_bounded(m1, now);
}

// ---- writing ----

/// What is still to be written of a batch is what lies behind what was.
pub proof fn law_unwritten(c: ClientModel)
    ensures
        c.write_off <= c.write_pending.len() ==> model::unwritten(c) + Seq::<u8>::empty()
            == c.write_pending.subrange(c.write_off as int, c.write_pending.len() as int),
        c.write_off >= c.write_pending.len() ==> model::unwritten(c).len() == 0,
{
}

/// Packets are joined while the batch holds fewer than 32768 bytes: of a queue
/// of one the packet, of a longer one its first packet and then the rest.
pub proof fn law_batch_filled(batch: Seq<u8>, ends: Seq<nat>, q: Seq<(bool, Seq<u8>)>)
    ensures
        batch.len() >= 32768 || q.len() == 0 ==> model::fill_batch(batch, ends, q) == (
            batch,
            ends,
            q,
        ),
        batch.len() < 32768 && q.len() > 0 ==> model::fill_batch(batch, ends, q)
            == model::fill_batch(
            batch + q[0].1,
            ends.push(batch.len() + q[0].1.len()),
            q.subrange(1, q.len() as int),
        ),
{
    if q.len() > 0 {
        assert(q.skip(1) =~= q.subrange(1, q.len() as int));
    }
}

/// The packets that are written are those that end where writing has got to, or
/// before.
pub proof fn law_ended(ends: Seq<nat>, off: usize, k: int)
    requires
        0 <= k <= ends.len(),
        forall|j: int| 0 <= j < k ==> #[trigger] ends[j] <= off,
        k < ends.len() ==> ends[k] > off,
    ensures
        model::ended(ends, off) == k,
    decreases k,
{
    if k > 0 {
        let rest = ends.skip(1);
        assert(ends[0] <= off);
        assert forall|j: int| 0 <= j < k - 1 implies #[trigger] rest[j] <= off by {
            assert(rest[j] == ends[j + 1]);
        }
        if k < ends.len() {
            assert(rest[k - 1] == ends[k]);
        }
        law_ended(rest, off, k - 1);
    }
}

/// After a write, what it took is left behind. There is more to write exactly if
/// the batch is not done or packets are queued; a batch that is done makes way
/// for the next.
pub proof fn law_after_write(c: ClientModel, n: usize)
    requires
        c.write_off + n <= c.write_pending.len() <= usize::MAX,
    ensures
        ({
            let (c2, counted, more) = model::after_write(c, n);
            let off = c.write_off + n;
            &&& more <==> off < c.write_pending.len() || c.write_queue.len() > 0
            &&& counted == model::ended(c.write_ends, off as usize)
            &&& off < c.write_pending.len() || c.write_queue.len() == 0 ==> {
                &&& c2.write_off == off
                &&& c2.write_pending == c.write_pending
                &&& c2.write_queue == c.write_queue
                &&& c2.write_ends == c.write_ends.skip(counted as int)
            }
            &&& off == c.write_pending.len() && c.write_queue.len() > 0 ==> {
                &&& c2.write_off == 0
                &&& (c2.write_pending, c2.write_ends, c2.write_queue) == model::fill_batch(
                    Seq::empty(),
                    Seq::empty(),
                    c.write_queue,
                )
            }
            &&& c2 == (ClientModel {
                write_off: c2.write_off,
                write_pending: c2.write_pending,
                write_ends: c2.write_ends,
                write_queue: c2.write_queue,
                ..c
            })
        }),
{
}

/// A connection that takes no more is waited for; one that failed costs the
/// client its place; otherwise writing goes on as long as there is something to
/// write, and the packets written are counted.
pub proof fn law_write(m: BrokerModel, token: usize, last: WriteOutcome, now: u64)
    requires
        m.clients.contains_key(token),
    ensures
        ({
            let (m2, action) = model::on_write(m, token, last, now);
            let n = match last {
                WriteOutcome::Wrote(n) => n,
                _ => 0,
            };
            let (c2, counted, more) = model::after_write(m.clients[token], n);
            &&& last is Failed ==> action is Closed && m2 == model::remove(m, token, now)
            &&& last is Zero || last is WouldBlock ==> m2 == m && action == (FlushAction::Wait {
                writable: true,
            })
            &&& last is Start || last is Wrote ==> {
                &&& more ==> action is Write
                &&& !more ==> action == (FlushAction::Wait { writable: false })
                &&& m2.clients == m.clients.insert(token, c2)
                &&& m2.sys_msgs_sent == model::count(m.sys_msgs_sent, counted)
                &&& m2 == (BrokerModel {
                    clients: m2.clients,
                    sys_msgs_sent: m2.sys_msgs_sent,
                    ..m
                })
            }
        }),
{
}

/// The clients that are flushed are those with packets queued or a batch that
/// is not done.
pub proof fn law_waiting(m: BrokerModel, token: usize)
    requires
        m.clients.dom().finite(),
    ensures
        model::waiting(m).contains(token) <==> m.clients.contains_key(token) && (
        m.clients[token].write_queue.len() > 0 || m.clients[token].write_off
            < m.clients[token].write_pending.len()),
{
    lemma_sorted_tokens(m.clients.dom());
    lemma_filter_has(model::tokens(m), |t: usize| model::has_unsent(m.clients[t]), token);
    assert(m.clients.dom().contains(token) <==> model::tokens(m).contains(token));
}

// ---- the keepalive sweep ----

/// The clients that the sweep removes are those whose deadline has passed.
pub proof fn law_expired_listed(m: BrokerModel, now: u64, token: usize)
    requires
        m.clients.dom().finite(),
    ensures
        model::expired(m, now).contains(token) <==> m.clients.contains_key(token) && (
        m.clients[token].keepalive_deadline matches Some(d) && d < now),
{
    lemma_sorted_tokens(m.clients.dom());
    lemma_filter_has(
        model::tokens(m),
        |t: usize| model::is_expired(m.clients[t], now),
        token,
    );
    assert(m.clients.dom().contains(token) <==> model::tokens(m).contains(token));
}

/// Clients are removed one after the other.
pub proof fn law_removed_in_order(m: BrokerModel, t: usize, rest: Seq<usize>, now: u64)
    ensures
        model::remove_all(m, Seq::empty(), now) == m,
        model::remove_all(m, seq![t] + rest, now) == model::remove_all(
            model::remove(m, t, now),
            rest,
            now,
        ),
        model::remove_present(m, Seq::empty(), now) == m,
        model::remove_present(m, seq![t] + rest, now) == model::remove_present(
            if m.clients.contains_key(t) {
                model::remove(m, t, now)
            } else {
                m
            },
            rest,
            now,
        ),
{
    assert((seq![t] + rest).skip(1) =~= rest);
}

// ---- retransmission ----

/// A message is due when it was sent at least as many milliseconds ago as told.
pub proof fn law_due(f: InFlightModel, now: u64, retry_ms: u64)
    ensures
        f.sent_at <= now ==> (model::is_due(f, now, retry_ms) <==> now - f.sent_at >= retry_ms
            * 1000000),
        f.sent_at > now ==> (model::is_due(f, now, retry_ms) <==> retry_ms == 0),
{
}

/// A packet that is sent again differs from the first in its DUP bit alone,
/// which is set.
pub proof fn law_dup_bit(pkt: Seq<u8>)
    requires
        pkt.len() > 0,
    ensures
        ({
            let r = model::with_dup(pkt);
            &&& r.len() == pkt.len()
            &&& r.skip(1) == pkt.skip(1)
            &&& (pkt[0] / 8) % 2 == 0 ==> r[0] == pkt[0] + 8
            &&& (pkt[0] / 8) % 2 == 1 ==> r[0] == pkt[0]
        }),
{
    let b = pkt[0];
    let r = model::with_dup(pkt);
    assert(r.skip(1) =~= pkt.skip(1));
    assert((b / 8) % 2 == 0 ==> b | 0x08 == b + 8) by (bit_vector);
    assert((b / 8) % 2 == 1 ==> b | 0x08 == b) by (bit_vector);
}

/// What is sent again is the PUBLISH, as long as no PUBREC for it has come, and
/// after that the PUBREL.
pub proof fn law_sent_again(f: InFlightModel, pid: u16)
    ensures
        f.qos2 && f.await_pubcomp ==> model::retry_packet(f, pid) == seq![
            0x6Au8,
            2,
            (pid / 256) as u8,
            (pid % 256) as u8,
        ],
        !f.qos2 || !f.await_pubcomp ==> model::retry_packet(f, pid) == model::with_dup(f.pkt),
{
    law_id_packet_bytes(0x62, pid);
    law_dup_bit(crate::packet::id_packet(0x62, pid));
    assert(model::with_dup(crate::packet::id_packet(0x62, pid)) =~= seq![
        0x6Au8,
        2,
        (pid / 256) as u8,
        (pid % 256) as u8,
    ]);
}

/// What is to be sent again is listed client by client, and for each message by
/// message.
pub proof fn law_retries_in_order(
    m: BrokerModel,
    c: ClientModel,
    a: Seq<usize>,
    b: Seq<usize>,
    token: usize,
    p: Seq<u16>,
    q: Seq<u16>,
    pid: u16,
    now: u64,
    retry_ms: u64,
)
    ensures
        model::retries(m, Seq::empty(), now, retry_ms) == Seq::<(usize, u16, Seq<u8>)>::empty(),
        model::retries(m, seq![token], now, retry_ms) == model::client_retries(
            m.clients[token],
            token,
            sorted_pids(m.clients[token].in_flight.dom()),
            now,
            retry_ms,
        ),
        model::retries(m, a + b, now, retry_ms) == model::retries(m, a, now, retry_ms)
            + model::retries(m, b, now, retry_ms),
        model::client_retries(c, token, Seq::empty(), now, retry_ms) == Seq::<
            (usize, u16, Seq<u8>),
        >::empty(),
        model::client_retries(c, token, seq![pid], now, retry_ms) == (if model::is_due(
            c.in_flight[pid],
            now,
            retry_ms,
        ) && c.in_flight[pid].retries < 3 {
            seq![(token, pid, model::retry_packet(c.in_flight[pid], pid))]
        } else {
            seq![]
        }),
        model::client_retries(c, token, p + q, now, retry_ms) == model::client_retries(
            c,
            token,
            p,
            now,
            retry_ms,
        ) + model::client_retries(c, token, q, now, retry_ms),
{
    lemma_retries_sum(m, a, b, now, retry_ms);
    lemma_client_retries_sum(c, token, p, q, now, retry_ms);
    let one = seq![token];
    assert(one.drop_last() =~= Seq::empty());
    let none = Seq::<(usize, u16, Seq<u8>)>::empty();
    assert(model::retries(m, one.drop_last(), now, retry_ms) == none);
    assert(model::retries(m, one, now, retry_ms) =~= model::client_retries(
        m.clients[token],
        token,
        sorted_pids(m.clients[token].in_flight.dom()),
        now,
        retry_ms,
    ));
    assert(seq![pid].drop_last() =~= Seq::empty());
    assert(model::client_retries(c, token, seq![pid].drop_last(), now, retry_ms) == none);
    let e = (token, pid, model::retry_packet(c.in_flight[pid], pid));
    assert(none.push(e) =~= seq![e]);
}

proof fn lemma_retries_sum(m: BrokerModel, a: Seq<usize>, b: Seq<usize>, now: u64, retry_ms: u64)
    ensures
        model::retries(m, a + b, now, retry_ms) == model::retries(m, a, now, retry_ms)
            + model::retries(m, b, now, retry_ms),
    decreases b.len(),
{
    let all = model::retries(m, a + b, now, retry_ms);
    if b.len() == 0 {
        assert(a + b =~= a);
    } else {
        lemma_retries_sum(m, a, b.drop_last(), now, retry_ms);
        assert((a + b).drop_last() =~= a + b.drop_last());
        assert((a + b).last() == b.last());
    }
    assert(all =~= model::retries(m, a, now, retry_ms) + model::retries(m, b, now, retry_ms));
}

proof fn lemma_client_retries_sum(
    c: ClientModel,
    token: usize,
    p: Seq<u16>,
    q: Seq<u16>,
    now: u64,
    retry_ms: u64,
)
    ensures
        model::client_retries(c, token, p + q, now, retry_ms) == model::client_retries(
            c,
            token,
            p,
            now,
            retry_ms,
        ) + model::client_retries(c, token, q, now, retry_ms),
    decreases q.len(),
{
    let all = model::client_retries(c, token, p + q, now, retry_ms);
    if q.len() == 0 {
        assert(p + q =~= p);
    } else {
        lemma_client_retries_sum(c, token, p, q.drop_last(), now, retry_ms);
        assert((p + q).drop_last() =~= p + q.drop_last());
        assert((p + q).last() == q.last());
    }
    assert(all =~= model::client_retries(c, token, p, now, retry_ms) + model::client_retries(
        c,
        token,
        q,
        now,
        retry_ms,
    ));
}

/// Message ids are gone through from the lowest to the highest, each of them
/// once.
pub proof fn law_ids_in_order(used: Set<u16>, i: int, j: int)
    requires
        used.finite(),
        0 <= i < j < sorted_pids(used).len(),
    ensures
        sorted_pids(used)[i] < sorted_pids(used)[j],
        used.contains(sorted_pids(used)[i]),
{
    lemma_sorted_pids(used);
    assert(sorted_pids(used).contains(sorted_pids(used)[i]));
}

/// Messages are sent again one after the other, each as told.
pub proof fn law_resent_in_order(
    m: BrokerModel,
    e: (usize, u16, Seq<u8>),
    rest: Seq<(usize, u16, Seq<u8>)>,
    now: u64,
)
    ensures
        model::resend_all(m, Seq::empty(), now) == m,
        model::resend_all(m, seq![e] + rest, now) == model::resend_all(
            model::resend(m, e.0, e.1, e.2, now),
            rest,
            now,
        ),
{
    assert((seq![e] + rest).skip(1) =~= rest);
}

/// Sending again queues the packet as one that must not be dropped, renews the
/// timer of the message and counts the attempt, if it is still in flight. In a
/// full queue the oldest packet that may be dropped makes room (`i` is its
/// place, or the length of the queue if there is none); where none can, the
/// client is removed.
pub proof fn law_resend(m: BrokerModel, token: usize, pid: u16, pkt: Seq<u8>, now: u64, i: int)
    requires
        m.clients.contains_key(token),
        0 <= i <= m.clients[token].write_queue.len() <= 8192,
        forall|j: int| 0 <= j < i ==> (#[trigger] m.clients[token].write_queue[j]).0,
        i < m.clients[token].write_queue.len() ==> !m.clients[token].write_queue[i].0,
    ensures
        ({
            let m2 = model::resend(m, token, pid, pkt, now);
            let (c, c2) = (m.clients[token], m2.clients[token]);
            let q = c.write_queue;
            let stuck = q.len() == 8192 && i == 8192;
            &&& stuck ==> m2 == model::remove(m, token, now)
            &&& !stuck ==> {
                &&& m2.clients == m.clients.insert(token, c2)
                &&& m2 == (BrokerModel { clients: m2.clients, ..m })
                &&& c2.write_queue == (if q.len() == 8192 {
                    q.remove(i)
                } else {
                    q
                }).push((true, pkt))
                &&& c2 == (ClientModel {
                    write_queue: c2.write_queue,
                    in_flight: c2.in_flight,
                    ..c
                })
                &&& !c.in_flight.contains_key(pid) ==> c2.in_flight == c.in_flight
                &&& c2.in_flight.dom() == c.in_flight.dom()
                &&& c.in_flight.contains_key(pid) && c.in_flight[pid].retries < u32::MAX ==> {
                    &&& c2.in_flight[pid].retries == c.in_flight[pid].retries + 1
                    &&& c2.in_flight[pid].sent_at == now
                    &&& c2.in_flight[pid] == (InFlightModel {
                        retries: c2.in_flight[pid].retries,
                        sent_at: c2.in_flight[pid].sent_at,
                        ..c.in_flight[pid]
                    })
                }
                &&& forall|p: u16| #[trigger]
                    c.in_flight.contains_key(p) && p != pid ==> c2.in_flight[p] == c.in_flight[p]
            }
        }),
{
    let c = m.clients[token];
    let m2 = model::resend(m, token, pid, pkt, now);
    law_oldest_droppable_goes(c.write_queue, i);
    if c.write_queue.len() == 8192 && i == 8192 {
        let full = ClientModel { write_queue: model::make_room(c.write_queue), ..c };
        assert(full == c);
        assert(m.clients.insert(token, c) =~= m.clients);
    } else {
        assert(m2.clients[token].in_flight.dom() =~= c.in_flight.dom());
    }
}

/// A message for a client that is gone is not sent again.
pub proof fn law_resend_gone(m: BrokerModel, token: usize, pid: u16, pkt: Seq<u8>, now: u64)
    requires
        !m.clients.contains_key(token),
    ensures
        model::resend(m, token, pid, pkt, now) == m,
{
}

/// A message is sent again if it is in flight, due, and was sent again fewer
/// than three times; a client is given up if one of its messages is due and was
/// sent again three times or more.
pub proof fn law_three_retries(
    m: BrokerModel,
    now: u64,
    retry_ms: u64,
    token: usize,
    pid: u16,
    pkt: Seq<u8>,
)
    requires
        bounded(m),
    ensures
        ({
            let c = m.clients[token];
            let open = m.clients.contains_key(token) && c.in_flight.contains_key(pid)
                && model::is_due(c.in_flight[pid], now, retry_ms);
            &&& model::retries(m, model::tokens(m), now, retry_ms).contains((token, pid, pkt))
                <==> open && c.in_flight[pid].retries < 3 && pkt == model::retry_packet(
                c.in_flight[pid],
                pid,
            )
            &&& open && c.in_flight[pid].retries >= 3 ==> model::given_up(
                m,
                now,
                retry_ms,
            ).contains(token)
            &&& model::given_up(m, now, retry_ms).contains(token) ==> m.clients.contains_key(token)
                && exists|p: u16|
                c.in_flight.contains_key(p) && c.in_flight[p].retries >= 3 && model::is_due(
                    #[trigger] c.in_flight[p],
                    now,
                    retry_ms,
                )
        }),
{
    let c = m.clients[token];
    crate::laws::qos::law_retries_exact(m, now, retry_ms, (token, pid, pkt));
    lemma_sorted_tokens(m.clients.dom());
    lemma_filter_has(
        model::tokens(m),
        |t: usize| model::is_given_up(m.clients[t], now, retry_ms),
        token,
    );
    assert(m.clients.dom().contains(token) <==> model::tokens(m).contains(token));
    if m.clients.contains_key(token) && c.in_flight.contains_key(pid) && model::is_due(
        c.in_flight[pid],
        now,
        retry_ms,
    ) && c.in_flight[pid].retries >= 3 {
        assert(model::is_given_up(c, now, retry_ms));
    }
}

/// A retransmission sends again what is due and then removes whom it gives up,
/// as judged before it began.
pub proof fn law_retransmission(m: BrokerModel, now: u64, retry_ms: u64)
    ensures
        model::retransmit(m, now, retry_ms) == model::remove_present(
            model::resend_all(m, model::retries(m, model::tokens(m), now, retry_ms), now),
            model::given_up(m, now, retry_ms),
            now,
        ),
{
}

/// The order of clients is that in which they came, each of them once.
pub proof fn law_clients_in_order(m: BrokerModel, i: int, j: int)
    requires
        m.clients.dom().finite(),
        0 <= i < j < model::tokens(m).len(),
    ensures
        model::tokens(m)[i] < model::tokens(m)[j],
        m.clients.contains_key(model::tokens(m)[i]),
{
    lemma_sorted_tokens(m.clients.dom());
    assert(model::tokens(m).contains(model::tokens(m)[i]));
}

// ---- the end of a round ----

/// A round publishes the statistics if they are due, removes the clients whose
/// deadline has passed, sends again what is due, and sees to all departures:
/// after it none is open, and such a client is gone.
pub proof fn law_round(
    m: BrokerModel,
    version: Seq<char>,
    now: u64,
    retry_ms: u64,
    token: usize,
)
    requires
        bounded(m),
        m.clients.contains_key(token) ==> (m.clients[token].keepalive_deadline matches Some(d) && d
            < now),
    ensures
        ({
            let m2 = model::tick(m, version, now, retry_ms);
            let m1 = model::sys_tick(m, version, now);
            let left = model::remove_all(m1, model::expired(m1, now), now);
            &&& m2.leaving.len() == 0
            &&& !m2.clients.contains_key(token)
            &&& m2 == model::settle(model::retransmit(left, now, retry_ms), now)
        }),
{
    let m1 = model::sys_tick(m, version, now);
    crate::laws::bounds::lemma_publish_all(m, model::sys_messages(m, version, now), now);
    assert(only_delivered(m, m1));
    let list = model::expired(m1, now);
    lemma_remove_all(m1, list, now);
    let m2 = model::remove_all(m1, list, now);
    if m1.clients.contains_key(token) {
        law_expired_listed(m1, now, token);
        let i = choose|i: int| 0 <= i < list.len() && list[i] == token;
        assert(!m2.clients.contains_key(list[i]));
    }
    let again = model::retries(m2, model::tokens(m2), now, retry_ms);
    lemma_resend_all(m2, again, now);
    let m3 = model::resend_all(m2, again, now);
    lemma_remove_present(m3, model::given_up(m2, now, retry_ms), now);
    let m4 = model::retransmit(m2, now, retry_ms);
    law_settle_bounded(m4, now);
    law_settled(m4, now);
}

/// A round in which nothing is due changes nothing.
pub proof fn law_quiet_round(m: BrokerModel, version: Seq<char>, now: u64, retry_ms: u64)
    requires
        bounded(m),
        m.leaving.len() == 0,
        m.sys_last_publish <= now < m.sys_last_publish + 10000000000,
        forall|t: usize| #[trigger]
            m.clients.contains_key(t) ==> (m.clients[t].keepalive_deadline matches Some(d) ==> now
                <= d),
        forall|t: usize, p: u16|
            #![trigger m.clients[t].in_flight[p]]
            m.clients.contains_key(t) && m.clients[t].in_flight.contains_key(p)
                ==> m.clients[t].in_flight[p].sent_at <= now && now
                - m.clients[t].in_flight[p].sent_at < retry_ms * 1000000,
    ensures
        model::tick(m, version, now, retry_ms) == m,
{
    assert forall|t: usize| #[trigger] m.clients.contains_key(t) implies !model::is_expired(
        m.clients[t],
        now,
    ) by {}
    crate::laws::bounds::law_sweep_without_expired(m, now);
    crate::laws::qos::law_nothing_due(m, now, retry_ms);
    crate::laws::leaving::law_settled_in_order(m, now);
}

} // verus!
