//! Laws of QoS 1 and 2: packet ids, acknowledgements, duplicates and
//! retransmission.
use crate::bytes::be16_at;
use crate::client::lemma_some_pid_free;
use crate::laws::bounds::{bounded, client_bounded, law_publish_bounded, lemma_remove_present};
use crate::model;
use crate::model::{Accept, BrokerModel, ClientModel, PacketError, IN_FLIGHT_CAP, QOS1_MAX_RETRIES};
use crate::order::{lemma_sorted_pids, lemma_sorted_tokens, sorted_pids};
use crate::packet::{id_packet, publish_head, publish_of, publish_packet, PUBLISH, PUBREL};
use crate::views::lemma_filter_has;
use vstd::prelude::*;
use vstd::utf8::encode_utf8;

verus! {

// ---- packet ids ----

proof fn lemma_free_pid(used: Set<u16>, start: u16, k: nat, n: nat)
    requires
        k <= n < 65535,
        !used.contains(model::pid_at(start, n)),
    ensures
        ({
            let r = model::taken_run(used, start, k);
            k <= r <= n && !used.contains(model::pid_at(start, r))
        }),
    decreases n - k,
{
    if used.contains(model::pid_at(start, k)) {
        lemma_free_pid(used, start, k + 1, n);
    }
}

/// The packet id of a message that is accepted at QoS 1 or 2 is not zero and
/// was not in use; the message is in flight under it, and nothing else in
/// flight is touched.
pub proof fn law_packet_id_fresh(
    c: ClientModel,
    topic: Seq<char>,
    payload: Seq<u8>,
    qos: u8,
    retain: bool,
    now: u64,
)
    requires
        qos > 0,
        c.in_flight.dom().finite(),
    ensures
        ({
            let pid = model::free_pid(c.in_flight.dom(), c.next_pid);
            let pkt = publish_packet(encode_utf8(topic), payload, qos, Some(pid), false, retain);
            model::accept(c, topic, payload, qos, retain, now) matches Accept::Queued(c2) ==> {
                &&& pid != 0
                &&& !c.in_flight.contains_key(pid)
                &&& c2.in_flight.contains_key(pid)
                &&& c2.in_flight[pid].pkt == pkt
                &&& c2.write_queue.last() == (true, pkt)
                &&& c2.in_flight.remove(pid) == c.in_flight
            }
        }),
{
    if c.in_flight.dom().len() < IN_FLIGHT_CAP {
        let used = c.in_flight.dom();
        lemma_some_pid_free(used, c.next_pid, IN_FLIGHT_CAP as nat);
        let n = choose|k: nat|
            k < IN_FLIGHT_CAP && !used.contains(#[trigger] model::pid_at(c.next_pid, k));
        lemma_free_pid(used, c.next_pid, 0, n);
        let pid = model::free_pid(used, c.next_pid);
        match model::accept(c, topic, payload, qos, retain, now) {
            Accept::Queued(c2) => {
                assert(c2.in_flight.remove(pid) =~= c.in_flight);
            },
            _ => {},
        }
    }
}

/// A client that has as many messages in flight as are allowed is sent no
/// further one at QoS 1 or 2: it is too slow.
pub proof fn law_window_full(
    c: ClientModel,
    topic: Seq<char>,
    payload: Seq<u8>,
    qos: u8,
    retain: bool,
    now: u64,
)
    requires
        qos > 0,
        c.in_flight.dom().len() >= IN_FLIGHT_CAP,
    ensures
        model::accept(c, topic, payload, qos, retain, now) is TooSlow,
{
}

/// An acknowledged packet id is free again: it is the one taken when the search
/// starts from it.
pub proof fn law_acknowledged_id_is_free(m: BrokerModel, token: usize, pid: u16)
    requires
        m.clients.contains_key(token),
        pid != 0,
    ensures
        ({
            let c = model::on_ack(m, token, pid).0.clients[token];
            &&& !c.in_flight.contains_key(pid)
            &&& model::free_pid(c.in_flight.dom(), pid) == pid
        }),
{
    let c = model::on_ack(m, token, pid).0.clients[token];
    assert(!c.in_flight.dom().contains(pid));
    assert(model::pid_at(pid, 0) == pid);
    assert(model::taken_run(c.in_flight.dom(), pid, 0) == 0);
}

// ---- inbound ----

/// A QoS 2 message whose packet id still awaits its release is acknowledged
/// again and not passed on: nothing changes but the sender's queue.
pub proof fn law_duplicate_not_forwarded(
    m: BrokerModel,
    token: usize,
    topic: Seq<char>,
    payload: Seq<u8>,
    pid: u16,
    retain: bool,
    now: u64,
)
    requires
        m.clients.contains_key(token),
        m.clients[token].received_qos2.contains(pid),
    ensures
        model::on_publish(m, token, (topic, 2u8, Some(pid), payload, retain), now) == (
            model::reply(m, token, id_packet(0x50, pid)),
            Ok::<(), PacketError>(()),
        ),
{
    let c = m.clients[token];
    assert(c.received_qos2.insert(pid) =~= c.received_qos2);
}

/// A QoS 2 message is remembered by its packet id: as long as its sender is
/// connected, and until it is released, sending it again changes nothing but
/// the sender's queue.
pub proof fn law_qos2_forwarded_once(
    m: BrokerModel,
    token: usize,
    topic: Seq<char>,
    payload: Seq<u8>,
    pid: u16,
    retain: bool,
    now: u64,
    later: u64,
)
    requires
        m.clients.contains_key(token),
        model::on_publish(
            m,
            token,
            (topic, 2u8, Some(pid), payload, retain),
            now,
        ).0.clients.contains_key(token),
    ensures
        ({
            let msg = (topic, 2u8, Some(pid), payload, retain);
            let m1 = model::on_publish(m, token, msg, now).0;
            model::on_publish(m1, token, msg, later).0 == model::reply(
                m1,
                token,
                id_packet(0x50, pid),
            )
        }),
{
    let c = m.clients[token];
    let c1 = ClientModel { received_qos2: c.received_qos2.insert(pid), ..c };
    let m0 = model::put_client(m, token, model::with_qos0(c1, id_packet(0x50, pid)));
    law_publish_bounded(m0, topic, payload, 2, retain, now);
    let m1 = model::on_publish(m, token, (topic, 2u8, Some(pid), payload, retain), now).0;
    assert(m1.clients[token].received_qos2.contains(pid));
    law_duplicate_not_forwarded(m1, token, topic, payload, pid, retain, later);
}

/// Once released, a packet id carries a new message: it is passed on.
pub proof fn law_packet_id_reusable(
    m: BrokerModel,
    token: usize,
    topic: Seq<char>,
    payload: Seq<u8>,
    pid: u16,
    retain: bool,
    now: u64,
)
    requires
        m.clients.contains_key(token),
    ensures
        ({
            let (m1, r) = model::on_pubrel(m, token, pid);
            let c1 = m1.clients[token];
            let c2 = model::with_qos0(
                ClientModel { received_qos2: c1.received_qos2.insert(pid), ..c1 },
                id_packet(0x50, pid),
            );
            &&& r is Ok
            &&& !c1.received_qos2.contains(pid)
            &&& model::on_publish(m1, token, (topic, 2u8, Some(pid), payload, retain), now).0
                == model::publish_received(
                model::put_client(m1, token, c2),
                topic,
                payload,
                2,
                retain,
                now,
            )
        }),
{
}

/// A PUBLISH packet that carries a QoS 2 message under `pid`.
pub open spec fn carries_qos2(pkt: (u8, u8, Seq<u8>), pid: u16) -> bool {
    pkt.0 == PUBLISH && (publish_of(pkt.1, pkt.2) matches Some((_, qos, id, _, _)) && qos == 2
        && id == Some(pid))
}

/// After a QoS 2 PUBLISH, as long as its sender is connected, another one under
/// the same packet id, be it the same packet or one marked as a duplicate, is
/// answered with PUBREC and does nothing else: no subscriber gets a second
/// copy.
pub proof fn law_repeated_publish(
    m: BrokerModel,
    token: usize,
    pkt: (u8, u8, Seq<u8>),
    again: (u8, u8, Seq<u8>),
    pid: u16,
    now: u64,
    later: u64,
)
    requires
        m.clients.contains_key(token),
        carries_qos2(pkt, pid),
        carries_qos2(again, pid),
        model::on_packet(m, token, pkt, now).0.clients.contains_key(token),
    ensures
        ({
            let m1 = model::on_packet(m, token, pkt, now).0;
            model::on_packet(m1, token, again, later) == (
                model::reply(model::heard(m1, token, later), token, id_packet(0x50, pid)),
                Ok::<(), PacketError>(()),
            )
        }),
{
    let (topic, qos, id, payload, retain) = publish_of(pkt.1, pkt.2)->0;
    let h = model::heard(m, token, now);
    let c = h.clients[token];
    let c1 = ClientModel { received_qos2: c.received_qos2.insert(pid), ..c };
    let m0 = model::put_client(h, token, model::with_qos0(c1, id_packet(0x50, pid)));
    law_publish_bounded(m0, topic, payload, 2, retain, now);
    let m1 = model::on_packet(m, token, pkt, now).0;
    assert(m1.clients[token].received_qos2.contains(pid));
    let (topic2, _, _, payload2, retain2) = publish_of(again.1, again.2)->0;
    let h1 = model::heard(m1, token, later);
    law_duplicate_not_forwarded(h1, token, topic2, payload2, pid, retain2, later);
}

/// After a PUBREL for it, a packet id carries a new message: the PUBLISH that
/// uses it is answered with PUBREC and passed on.
pub proof fn law_released_id_publishes(
    m: BrokerModel,
    token: usize,
    released: (u8, u8, Seq<u8>),
    pkt: (u8, u8, Seq<u8>),
    pid: u16,
    now: u64,
    later: u64,
)
    requires
        m.clients.contains_key(token),
        released.0 == PUBREL,
        released.2.len() >= 2,
        be16_at(released.2, 0) == pid,
        carries_qos2(pkt, pid),
    ensures
        ({
            let (m1, r1) = model::on_packet(m, token, released, now);
            let h1 = model::heard(m1, token, later);
            let c1 = h1.clients[token];
            let c2 = model::with_qos0(
                ClientModel { received_qos2: c1.received_qos2.insert(pid), ..c1 },
                id_packet(0x50, pid),
            );
            let (topic, _, _, payload, retain) = publish_of(pkt.1, pkt.2)->0;
            &&& r1 is Ok
            &&& model::on_packet(m1, token, pkt, later) == (
                model::publish_received(
                    model::put_client(h1, token, c2),
                    topic,
                    payload,
                    2,
                    retain,
                    later,
                ),
                Ok::<(), PacketError>(()),
            )
        }),
{
}

// ---- outbound ----

/// The two halves of a QoS 2 delivery: PUBREC turns a message that awaits it
/// into one that awaits PUBCOMP and is answered with PUBREL, and PUBCOMP ends
/// it.
pub proof fn law_qos2_handshake(m: BrokerModel, token: usize, pid: u16, now: u64)
    requires
        m.clients.contains_key(token),
        m.clients[token].in_flight.contains_key(pid),
        m.clients[token].in_flight[pid].qos2,
        !m.clients[token].in_flight[pid].await_pubcomp,
    ensures
        ({
            let c = m.clients[token];
            let (m1, r1) = model::on_pubrec(m, token, pid, now);
            let c1 = m1.clients[token];
            let (m2, r2) = model::on_ack(m1, token, pid);
            &&& r1 is Ok
            &&& c1.in_flight.contains_key(pid)
            &&& c1.in_flight[pid].await_pubcomp
            &&& model::retry_packet(c1.in_flight[pid], pid) == model::with_dup(id_packet(0x62, pid))
            &&& c.write_queue.len() < model::WRITE_QUEUE_CAP ==> c1.write_queue
                == c.write_queue.push((false, id_packet(0x62, pid)))
            &&& r2 is Ok
            &&& m2.clients[token].in_flight == c.in_flight.remove(pid)
        }),
{
    let c = m.clients[token];
    let m1 = model::on_pubrec(m, token, pid, now).0;
    assert(m1.clients[token].in_flight.remove(pid) =~= c.in_flight.remove(pid));
}

/// A repeated PUBREC changes nothing.
pub proof fn law_repeated_pubrec(m: BrokerModel, token: usize, pid: u16, now: u64)
    requires
        m.clients.contains_key(token),
        m.clients[token].in_flight.contains_key(pid) ==> m.clients[token].in_flight[pid].await_pubcomp
            || !m.clients[token].in_flight[pid].qos2,
    ensures
        model::on_pubrec(m, token, pid, now) == (m, Ok::<(), PacketError>(())),
{
}

// ---- retransmission ----

/// A PUBLISH is sent again with its DUP flag set and otherwise the same.
pub proof fn law_retry_is_duplicate(
    topic: Seq<u8>,
    payload: Seq<u8>,
    qos: u8,
    pid: Option<u16>,
    retain: bool,
)
    ensures
        model::with_dup(publish_packet(topic, payload, qos, pid, false, retain)) == publish_packet(
            topic,
            payload,
            qos,
            pid,
            true,
            retain,
        ),
{
    let r: u8 = if retain {
        0x01
    } else {
        0
    };
    let q = qos << 1u8;
    assert((0x30u8 | q | 0u8 | r) | 0x08 == 0x30u8 | q | 0x08 | r) by (bit_vector);
    assert(publish_head(qos, false, retain) == 0x30u8 | q | 0u8 | r);
    assert(publish_head(qos, true, retain) == 0x30u8 | q | 0x08 | r);
    let pkt = publish_packet(topic, payload, qos, pid, false, retain);
    assert(pkt[0] == publish_head(qos, false, retain));
    assert(model::with_dup(pkt) =~= publish_packet(topic, payload, qos, pid, true, retain));
}

/// A PUBREL is sent again with its DUP flag set.
pub proof fn law_pubrel_retry(pid: u16)
    ensures
        model::with_dup(id_packet(0x62, pid)) == id_packet(0x6A, pid),
{
    assert(0x62u8 | 0x08 == 0x6Au8) by (bit_vector);
    let pkt = id_packet(0x62, pid);
    assert(pkt[0] == 0x62);
    assert(model::with_dup(pkt) =~= id_packet(0x6A, pid));
}

/// The message `pid` of client `token` is to be sent again.
pub open spec fn to_resend(m: BrokerModel, token: usize, pid: u16, now: u64, retry_ms: u64) -> bool {
    &&& m.clients.contains_key(token)
    &&& m.clients[token].in_flight.contains_key(pid)
    &&& model::is_due(m.clients[token].in_flight[pid], now, retry_ms)
    &&& m.clients[token].in_flight[pid].retries < QOS1_MAX_RETRIES
}

proof fn lemma_client_retries(
    c: ClientModel,
    token: usize,
    pids: Seq<u16>,
    now: u64,
    retry_ms: u64,
    e: (usize, u16, Seq<u8>),
)
    ensures
        model::client_retries(c, token, pids, now, retry_ms).contains(e) <==> e.0 == token
            && pids.contains(e.1) && model::is_due(c.in_flight[e.1], now, retry_ms)
            && c.in_flight[e.1].retries < QOS1_MAX_RETRIES && e.2 == model::retry_packet(
            c.in_flight[e.1],
            e.1,
        ),
    decreases pids.len(),
{
    if pids.len() > 0 {
        let rest = pids.drop_last();
        let last = pids.last();
        lemma_client_retries(c, token, rest, now, retry_ms, e);
        let before = model::client_retries(c, token, rest, now, retry_ms);
        let entry = (token, last, model::retry_packet(c.in_flight[last], last));
        lemma_push_has(before, entry, e);
        lemma_push_has(rest, last, e.1);
        assert(pids =~= rest.push(last));
    }
}

proof fn lemma_push_has<T>(s: Seq<T>, t: T, e: T)
    ensures
        s.push(t).contains(e) <==> s.contains(e) || t == e,
{
    if s.contains(e) {
        let i = choose|i: int| 0 <= i < s.len() && s[i] == e;
        assert(s.push(t)[i] == e);
    }
    assert(s.push(t)[s.len() as int] == t);
    if s.push(t).contains(e) && t != e {
        let i = choose|i: int| 0 <= i < s.push(t).len() && s.push(t)[i] == e;
        assert(s[i] == e);
    }
}

proof fn lemma_retries(
    m: BrokerModel,
    list: Seq<usize>,
    now: u64,
    retry_ms: u64,
    e: (usize, u16, Seq<u8>),
)
    requires
        forall|t: usize|
            #![trigger m.clients[t]]
            list.contains(t) ==> m.clients[t].in_flight.dom().finite(),
    ensures
        model::retries(m, list, now, retry_ms).contains(e) <==> list.contains(e.0)
            && m.clients[e.0].in_flight.contains_key(e.1) && model::is_due(
            m.clients[e.0].in_flight[e.1],
            now,
            retry_ms,
        ) && m.clients[e.0].in_flight[e.1].retries < QOS1_MAX_RETRIES && e.2
            == model::retry_packet(m.clients[e.0].in_flight[e.1], e.1),
    decreases list.len(),
{
    if list.len() > 0 {
        let rest = list.drop_last();
        let last = list.last();
        let c = m.clients[last];
        assert(list[list.len() - 1] == last);
        assert(list.contains(last));
        assert(list =~= rest.push(last));
        lemma_push_has(rest, last, e.0);
        assert forall|t: usize| #![trigger m.clients[t]] rest.contains(
            t,
        ) implies m.clients[t].in_flight.dom().finite() by {
            lemma_push_has(rest, last, t);
        }
        lemma_retries(m, rest, now, retry_ms, e);
        let pids = sorted_pids(c.in_flight.dom());
        lemma_sorted_pids(c.in_flight.dom());
        assert(c.in_flight.dom().contains(e.1) <==> pids.contains(e.1));
        lemma_client_retries(c, last, pids, now, retry_ms, e);
        let a = model::retries(m, rest, now, retry_ms);
        let b = model::client_retries(c, last, pids, now, retry_ms);
        assert((a + b).contains(e) <==> a.contains(e) || b.contains(e)) by {
            if a.contains(e) {
                let i = choose|i: int| 0 <= i < a.len() && a[i] == e;
                assert((a + b)[i] == e);
            }
            if b.contains(e) {
                let i = choose|i: int| 0 <= i < b.len() && b[i] == e;
                assert((a + b)[a.len() + i] == e);
            }
        }
    }
}

/// What is sent again is exactly what is in flight, was not answered in time
/// and was not sent too often.
pub proof fn law_retries_exact(
    m: BrokerModel,
    now: u64,
    retry_ms: u64,
    e: (usize, u16, Seq<u8>),
)
    requires
        bounded(m),
    ensures
        model::retries(m, model::tokens(m), now, retry_ms).contains(e) <==> to_resend(
            m,
            e.0,
            e.1,
            now,
            retry_ms,
        ) && e.2 == model::retry_packet(m.clients[e.0].in_flight[e.1], e.1),
{
    let list = model::tokens(m);
    lemma_sorted_tokens(m.clients.dom());
    assert forall|t: usize| #![trigger m.clients[t]] list.contains(
            t,
        ) implies m.clients[t].in_flight.dom().finite() by {
        assert(m.clients.dom().contains(t));
        assert(m.clients.contains_key(t));
    }
    lemma_retries(m, list, now, retry_ms, e);
    assert(m.clients.dom().contains(e.0) <==> list.contains(e.0));
}

/// An acknowledged message is never sent again.
pub proof fn law_no_retry_after_ack(
    m: BrokerModel,
    token: usize,
    pid: u16,
    now: u64,
    retry_ms: u64,
    pkt: Seq<u8>,
)
    requires
        bounded(m),
        m.clients.contains_key(token),
    ensures
        ({
            let m1 = model::on_ack(m, token, pid).0;
            !model::retries(m1, model::tokens(m1), now, retry_ms).contains((token, pid, pkt))
        }),
{
    let c = m.clients[token];
    let m1 = model::on_ack(m, token, pid).0;
    assert(c.in_flight.remove(pid).dom() =~= c.in_flight.dom().remove(pid));
    assert(bounded(m1)) by {
        assert(m1.clients.dom() =~= m.clients.dom());
        assert forall|t: usize| #[trigger] m1.clients.contains_key(t) implies client_bounded(
            m1.clients[t],
        ) && m1.clients[t].token == t && t < m1.next_token by {
            assert(m.clients.contains_key(t));
        }
    }
    law_retries_exact(m1, now, retry_ms, (token, pid, pkt));
}

/// A client that left a message unanswered too often is removed.
pub proof fn law_given_up_removed(m: BrokerModel, token: usize, now: u64, retry_ms: u64)
    requires
        m.clients.dom().finite(),
        m.clients.contains_key(token),
        model::is_given_up(m.clients[token], now, retry_ms),
    ensures
        !model::retransmit(m, now, retry_ms).clients.contains_key(token),
{
    let all = model::tokens(m);
    let keep = |t: usize| model::is_given_up(m.clients[t], now, retry_ms);
    lemma_sorted_tokens(m.clients.dom());
    assert(all.contains(token));
    lemma_filter_has(all, keep, token);
    let gone = model::given_up(m, now, retry_ms);
    assert(gone == all.filter(keep));
    let i = choose|i: int| 0 <= i < gone.len() && gone[i] == token;
    let m2 = model::resend_all(m, model::retries(m, all, now, retry_ms), now);
    lemma_remove_present(m2, gone, now);
    assert(!model::remove_present(m2, gone, now).clients.contains_key(gone[i]));
}

/// When every message in flight was sent recently, nothing is sent again and
/// nobody is removed.
pub proof fn law_nothing_due(m: BrokerModel, now: u64, retry_ms: u64)
    requires
        bounded(m),
        forall|t: usize, p: u16|
            #![trigger m.clients[t].in_flight[p]]
            m.clients.contains_key(t) && m.clients[t].in_flight.contains_key(p)
                ==> !model::is_due(m.clients[t].in_flight[p], now, retry_ms),
    ensures
        model::retransmit(m, now, retry_ms) == m,
{
    let all = model::tokens(m);
    let again = model::retries(m, all, now, retry_ms);
    if again.len() > 0 {
        assert(again.contains(again[0]));
        law_retries_exact(m, now, retry_ms, again[0]);
    }
    let keep = |t: usize| model::is_given_up(m.clients[t], now, retry_ms);
    lemma_sorted_tokens(m.clients.dom());
    let gone = model::given_up(m, now, retry_ms);
    assert(gone == all.filter(keep));
    if gone.len() > 0 {
        assert(gone.contains(gone[0]));
        lemma_filter_has(all, keep, gone[0]);
        assert(m.clients.dom().contains(gone[0]));
    }
}

/// Sending a message again renews its timer and counts the attempt; it stays
/// in flight.
pub proof fn law_resend_counts(c: ClientModel, pid: u16, pkt: Seq<u8>, now: u64)
    requires
        c.in_flight.contains_key(pid),
        c.in_flight[pid].retries < QOS1_MAX_RETRIES,
    ensures
        model::resent(c, pid, pkt, now) matches Some(c2) ==> {
            &&& c2.in_flight.dom() == c.in_flight.dom()
            &&& c2.in_flight[pid].retries == c.in_flight[pid].retries + 1
            &&& c2.in_flight[pid].sent_at == now
            &&& c2.in_flight[pid].pkt == c.in_flight[pid].pkt
            &&& c2.write_queue.last() == (true, pkt)
        },
{
    match model::resent(c, pid, pkt, now) {
        Some(c2) => {
            assert(c2.in_flight.dom() =~= c.in_flight.dom());
        },
        None => {},
    }
}

} // verus!
